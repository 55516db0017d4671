//! Paths as text. A path is a string whose separator is `/`; a backslash
//! counts as one too and is rewritten first, so that the same text names the
//! same place on every machine.

use crate::text::{append, last_occurrence, one, rfind, single, slice, string_of};
use vstd::prelude::*;

verus! {

/// `p` with every backslash turned into a slash.
pub open spec fn slashed(p: Seq<char>) -> Seq<char> {
    Seq::new(p.len(), |i: int| if p[i] == '\\' { '/' } else { p[i] })
}

/// `name` below the directory `base`. A `name` that starts at the root
/// stands for itself.
pub open spec fn joined_path(base: Seq<char>, name: Seq<char>) -> Seq<char> {
    if base.len() == 0 || (name.len() > 0 && name[0] == '/') {
        name
    } else if base.last() == '/' {
        base + name
    } else {
        base + one('/') + name
    }
}

/// The index of the last slash of `p`.
pub open spec fn last_slash(p: Seq<char>) -> Option<int> {
    last_occurrence(p, one('/'), p.len() - 1)
}

/// The directory that holds `p`: the text before its last slash, the root
/// for a name directly below it, the empty path for a bare name. The root
/// and the empty path have none.
pub open spec fn parent_of(p: Seq<char>) -> Option<Seq<char>> {
    match last_slash(p) {
        None => if p.len() == 0 {
            None
        } else {
            Some(Seq::empty())
        },
        Some(i) => if i > 0 {
            Some(p.subrange(0, i))
        } else if p.len() == 1 {
            None
        } else {
            Some(one('/'))
        },
    }
}

/// The last name of `p`: the text after its last slash.
pub open spec fn file_name_of(p: Seq<char>) -> Seq<char> {
    match last_slash(p) {
        None => p,
        Some(i) => p.subrange(i + 1, p.len() as int),
    }
}

/// The extension of the last name of `p`: the text after its last dot,
/// unless the name has no dot or only begins with one.
pub open spec fn extension_of(p: Seq<char>) -> Option<Seq<char>> {
    let name = file_name_of(p);
    match last_occurrence(name, one('.'), name.len() - 1) {
        None => None,
        Some(i) => if i == 0 {
            None
        } else {
            Some(name.subrange(i + 1, name.len() as int))
        },
    }
}

/// A piece of a path names something: it is not empty, not `.` and not `..`.
pub open spec fn is_normal(piece: Seq<char>) -> bool {
    piece.len() > 0 && piece != one('.') && piece != seq!['.', '.']
}

/// `piece` as a list of one name, or of none where it names nothing.
pub open spec fn kept(piece: Seq<char>) -> Seq<Seq<char>> {
    if is_normal(piece) {
        seq![piece]
    } else {
        Seq::empty()
    }
}

/// The names of `p` from the piece that starts at `start`, the scan
/// standing at `i`.
pub open spec fn components_from(p: Seq<char>, start: int, i: int) -> Seq<Seq<char>>
    decreases p.len() - i,
{
    if i < 0 || start < 0 || start > i || i >= p.len() {
        if 0 <= start <= p.len() {
            kept(p.subrange(start, p.len() as int))
        } else {
            Seq::empty()
        }
    } else if p[i] == '/' {
        kept(p.subrange(start, i)) + components_from(p, i + 1, i + 1)
    } else {
        components_from(p, start, i + 1)
    }
}

/// A piece of a path is a step of a way: it is not empty and not `.`. A
/// step up, `..`, is one.
pub open spec fn is_step(piece: Seq<char>) -> bool {
    piece.len() > 0 && piece != one('.')
}

/// One for a step, nothing for another piece.
pub open spec fn step_count(piece: Seq<char>) -> nat {
    if is_step(piece) {
        1
    } else {
        0
    }
}

/// The number of steps of `p` from the piece that starts at `start`, the
/// scan standing at `i`.
pub open spec fn steps_from(p: Seq<char>, start: int, i: int) -> nat
    decreases p.len() - i,
{
    if i < 0 || start < 0 || start > i || i >= p.len() {
        if 0 <= start <= p.len() {
            step_count(p.subrange(start, p.len() as int))
        } else {
            0
        }
    } else if p[i] == '/' {
        step_count(p.subrange(start, i)) + steps_from(p, i + 1, i + 1)
    } else {
        steps_from(p, start, i + 1)
    }
}

/// The length of the way `p`: one for the root where `p` starts there,
/// and one for each name and each step up.
pub open spec fn steps(p: Seq<char>) -> nat {
    steps_from(p, 0, 0) + if p.len() > 0 && p[0] == '/' {
        1nat
    } else {
        0nat
    }
}

/// The names that the pieces of `p` between its slashes give, in order.
pub open spec fn components(p: Seq<char>) -> Seq<Seq<char>> {
    components_from(p, 0, 0)
}

/// The last name of a path that ends with `w`, where `w` holds no slash,
/// ends with `w` too.
pub proof fn lemma_file_name_keeps_suffix(x: Seq<char>, w: Seq<char>)
    requires
        crate::text::has_suffix(x, w),
        slash_free(w),
    ensures
        crate::text::has_suffix(file_name_of(x), w),
{
    let n = x.len() as int;
    let k = w.len() as int;
    crate::text::lemma_last_occurrence_fits(x, one('/'), n - 1);
    match last_slash(x) {
        None => {},
        Some(i) => {
            assert(x.subrange(i, i + 1)[0] == '/');
            if i >= n - k {
                assert(x.subrange(n - k, n)[i - (n - k)] == x[i]);
                assert(w[i - (n - k)] == '/');
            }
            let name = x.subrange(i + 1, n);
            assert(name.subrange(name.len() - k, name.len() as int) =~= x.subrange(n - k, n));
        },
    }
}

/// A path ends with the name that was joined to it.
pub proof fn lemma_joined_keeps_suffix(base: Seq<char>, name: Seq<char>, w: Seq<char>)
    requires
        crate::text::has_suffix(name, w),
    ensures
        crate::text::has_suffix(joined_path(base, name), w),
{
    if base.len() == 0 || (name.len() > 0 && name[0] == '/') {
    } else if base.last() == '/' {
        crate::text::lemma_suffix_after_prefix(base, name, w);
    } else {
        crate::text::lemma_suffix_after_prefix(base + one('/'), name, w);
    }
}

/// No character of `a` is a slash.
pub open spec fn slash_free(a: Seq<char>) -> bool {
    forall|i: int| 0 <= i < a.len() ==> #[trigger] a[i] != '/'
}

/// The last name of a path holds no slash.
pub proof fn lemma_file_name_slash_free(p: Seq<char>)
    ensures
        slash_free(file_name_of(p)),
{
    let n = p.len() as int;
    crate::text::lemma_last_occurrence_fits(p, one('/'), n - 1);
    let name = file_name_of(p);
    assert forall|k: int| 0 <= k < name.len() implies #[trigger] name[k] != '/' by {
        match last_slash(p) {
            None => {
                if p[k] == '/' {
                    assert(p.subrange(k, k + 1) =~= one('/'));
                    assert(crate::text::occurs_at(p, one('/'), k));
                }
            },
            Some(i) => {
                let j = i + 1 + k;
                if p[j] == '/' {
                    assert(p.subrange(j, j + 1) =~= one('/'));
                    assert(crate::text::occurs_at(p, one('/'), j));
                }
            },
        }
    }
}

/// The last name of the path of a name below a directory is that name,
/// where the name holds no slash.
pub proof fn lemma_file_name_of_joined(base: Seq<char>, name: Seq<char>)
    requires
        slash_free(name),
    ensures
        file_name_of(joined_path(base, name)) == name,
{
    let x = joined_path(base, name);
    let n = x.len() as int;
    crate::text::lemma_last_occurrence_fits(x, one('/'), n - 1);
    if name.len() > 0 {
        assert(name[0] != '/');
    }
    if base.len() == 0 {
        match last_slash(x) {
            None => {},
            Some(i) => {
                assert(x.subrange(i, i + 1)[0] == '/');
                assert(name[i] == '/');
            },
        }
    } else {
        let at = n - name.len() - 1;
        assert(x[at] == '/');
        assert(x.subrange(at, at + 1) =~= one('/'));
        assert(crate::text::occurs_at(x, one('/'), at));
        match last_slash(x) {
            None => {},
            Some(i) => {
                assert(x.subrange(i, i + 1)[0] == '/');
                if i > at {
                    assert(x[i] == name[i - at - 1]);
                }
                assert(i == at);
                assert(x.subrange(i + 1, n) =~= name);
            },
        }
    }
}

/// The scan passes over characters that are no slash.
pub proof fn lemma_components_scan(p: Seq<char>, start: int, i: int, e: int)
    requires
        0 <= start <= i <= e <= p.len(),
        forall|j: int| i <= j < e ==> #[trigger] p[j] != '/',
    ensures
        components_from(p, start, i) == components_from(p, start, e),
    decreases e - i,
{
    if i < e {
        lemma_components_scan(p, start, i + 1, e);
    }
}

/// The names of a text do not depend on what stands before the piece at
/// which the scan starts.
pub proof fn lemma_components_shift(pre: Seq<char>, s: Seq<char>, start: int, i: int)
    requires
        0 <= start <= i <= s.len(),
    ensures
        components_from(pre + s, pre.len() + start, pre.len() + i) == components_from(s, start, i),
    decreases s.len() - i,
{
    let p = pre + s;
    let n = pre.len() as int;
    if i >= s.len() {
        assert(p.subrange(n + start, p.len() as int) =~= s.subrange(start, s.len() as int));
    } else {
        assert(p[n + i] == s[i]);
        if s[i] == '/' {
            assert(p.subrange(n + start, n + i) =~= s.subrange(start, i));
            lemma_components_shift(pre, s, i + 1, i + 1);
        } else {
            lemma_components_shift(pre, s, start, i + 1);
        }
    }
}

/// The names of `a/rest`, where `a` holds no slash, are `a`, where it names
/// something, and the names of `rest`.
pub proof fn lemma_components_first(a: Seq<char>, rest: Seq<char>)
    requires
        slash_free(a),
    ensures
        components(a + one('/') + rest) == kept(a) + components(rest),
{
    let pre = a + one('/');
    let p = pre + rest;
    let n = a.len() as int;
    assert forall|j: int| 0 <= j < n implies #[trigger] p[j] != '/' by {
        assert(p[j] == a[j]);
    }
    lemma_components_scan(p, 0, 0, n);
    assert(p[n] == '/');
    assert(p.subrange(0, n) =~= a);
    lemma_components_shift(pre, rest, 0, 0);
}

/// The names of a text without a slash are the text itself, where it names
/// something.
pub proof fn lemma_components_last(a: Seq<char>)
    requires
        slash_free(a),
    ensures
        components(a) == kept(a),
{
    lemma_components_scan(a, 0, 0, a.len() as int);
    assert(a.subrange(0, a.len() as int) =~= a);
}

/// The way `artist/album/file`, each of the three a name without a slash,
/// has exactly these three names.
pub proof fn lemma_components_of_three(artist: Seq<char>, album: Seq<char>, file: Seq<char>)
    requires
        slash_free(artist) && is_normal(artist),
        slash_free(album) && is_normal(album),
        slash_free(file) && is_normal(file),
    ensures
        components(artist + one('/') + album + one('/') + file) == seq![artist, album, file],
{
    let tail = album + one('/') + file;
    lemma_components_first(artist, tail);
    lemma_components_first(album, file);
    lemma_components_last(file);
    assert(artist + one('/') + album + one('/') + file =~= artist + one('/') + tail);
    assert(kept(artist) + (kept(album) + kept(file)) =~= seq![artist, album, file]);
}

/// What `pathdiff::diff_paths` makes of a path and a base: the way from the
/// base to the path, where it finds one. It reads the two paths as the
/// machine does that the library is built for.
pub uninterp spec fn relative_path(path: Seq<char>, base: Seq<char>) -> Option<Seq<char>>;

/// Calls `pathdiff::diff_paths` on the two paths and hands its answer back
/// as text. The contract only gives that answer its name.
#[verifier::external_body]
pub(crate) fn diff_paths(path: &str, base: &str) -> (r: Option<String>)
    ensures
        match r {
            Some(rel) => relative_path(path@, base@) == Some(rel@),
            None => relative_path(path@, base@).is_none(),
        },
{
    pathdiff::diff_paths(path, base).map(|rel| rel.to_string_lossy().into_owned())
}

/// Turns every backslash of `p` into a slash.
pub fn normalize(p: &Vec<char>) -> (r: Vec<char>)
    ensures
        r@ == slashed(p@),
{
    let mut r: Vec<char> = Vec::new();
    let mut i: usize = 0;
    while i < p.len()
        invariant
            i <= p.len(),
            r@ == slashed(p@).take(i as int),
        decreases p.len() - i,
    {
        let c: char = p[i];
        if c == '\\' {
            r.push('/');
        } else {
            r.push(c);
        }
        i += 1;
    }
    r
}

/// The path of `name` below `base`.
pub fn join(base: &Vec<char>, name: &Vec<char>) -> (r: Vec<char>)
    ensures
        r@ == joined_path(base@, name@),
{
    if base.len() == 0 || (name.len() > 0 && name[0] == '/') {
        return slice(name, 0, name.len());
    }
    let mut r: Vec<char> = slice(base, 0, base.len());
    if base[base.len() - 1] != '/' {
        r.push('/');
    }
    append(&mut r, name);
    r
}

/// The directory that holds `p`.
pub fn parent(p: &Vec<char>) -> (r: Option<Vec<char>>)
    ensures
        match r {
            Some(d) => parent_of(p@) == Some(d@),
            None => parent_of(p@).is_none(),
        },
{
    let slash = single('/');
    match rfind(p, &slash) {
        None => if p.len() == 0 {
            None
        } else {
            Some(Vec::new())
        },
        Some(i) => if i > 0 {
            Some(slice(p, 0, i))
        } else if p.len() == 1 {
            None
        } else {
            Some(slash)
        },
    }
}

/// The last name of `p`.
pub fn file_name(p: &Vec<char>) -> (r: Vec<char>)
    ensures
        r@ == file_name_of(p@),
{
    let slash = single('/');
    match rfind(p, &slash) {
        None => slice(p, 0, p.len()),
        Some(i) => {
            let n: usize = p.len();
            slice(p, i + 1, n)
        },
    }
}

/// The extension of the last name of `p`.
pub fn extension(p: &Vec<char>) -> (r: Option<Vec<char>>)
    ensures
        match r {
            Some(e) => extension_of(p@) == Some(e@),
            None => extension_of(p@).is_none(),
        },
{
    let name = file_name(p);
    let dot = single('.');
    match rfind(&name, &dot) {
        None => None,
        Some(i) => if i == 0 {
            None
        } else {
            let n: usize = name.len();
            Some(slice(&name, i + 1, n))
        },
    }
}

/// Tells whether `piece` names something.
pub fn names_something(piece: &Vec<char>) -> (r: bool)
    ensures
        r == is_normal(piece@),
{
    if piece.len() == 0 {
        return false;
    }
    if piece.len() == 1 && piece[0] == '.' {
        assert(piece@ =~= one('.'));
        return false;
    }
    if piece.len() == 2 && piece[0] == '.' && piece[1] == '.' {
        assert(piece@ =~= seq!['.', '.']);
        return false;
    }
    assert(piece@ != one('.')) by {
        if piece@ == one('.') {
            assert(piece@[0] == '.');
        }
    }
    assert(piece@ != seq!['.', '.']) by {
        if piece@ == seq!['.', '.'] {
            assert(piece@[0] == '.');
            assert(piece@[1] == '.');
        }
    }
    true
}

/// Tells whether `piece` is a step of a way.
pub fn counts_as_step(piece: &Vec<char>) -> (r: bool)
    ensures
        r == is_step(piece@),
{
    if piece.len() == 0 {
        return false;
    }
    if piece.len() == 1 && piece[0] == '.' {
        assert(piece@ =~= one('.'));
        return false;
    }
    assert(piece@ != one('.')) by {
        if piece@ == one('.') {
            assert(piece@[0] == '.');
        }
    }
    true
}

/// `count` is `total`, or stands one above `limit` where `total` is above
/// `limit`.
pub open spec fn counted(total: nat, limit: u32, count: u64) -> bool {
    if total <= limit {
        count == total
    } else {
        count == limit + 1
    }
}

/// Tells whether the way `p` is longer than `limit` steps.
pub fn longer_than(p: &Vec<char>, limit: u32) -> (r: bool)
    ensures
        r == (steps(p@) > limit),
{
    let mut count: u64 = if p.len() > 0 && p[0] == '/' {
        1
    } else {
        0
    };
    let ghost mut seen: nat = count as nat;
    let mut start: usize = 0;
    let mut i: usize = 0;
    while i < p.len()
        invariant
            start <= i <= p.len(),
            seen + steps_from(p@, start as int, i as int) == steps(p@),
            counted(seen, limit, count),
        decreases p.len() - i,
    {
        if p[i] == '/' {
            let piece = slice(p, start, i);
            if counts_as_step(&piece) {
                if count <= limit as u64 {
                    count += 1;
                }
                proof {
                    seen = seen + 1;
                }
            }
            start = i + 1;
        }
        i += 1;
    }
    let piece = slice(p, start, p.len());
    if counts_as_step(&piece) {
        if count <= limit as u64 {
            count += 1;
        }
        proof {
            seen = seen + 1;
        }
    }
    count > limit as u64
}

/// The names that the pieces of `p` give, in order.
pub fn split_components(p: &Vec<char>) -> (r: Vec<String>)
    ensures
        r.deep_view() == components(p@),
{
    let mut out: Vec<String> = Vec::new();
    let mut start: usize = 0;
    let mut i: usize = 0;
    while i < p.len()
        invariant
            start <= i <= p.len(),
            out.deep_view() + components_from(p@, start as int, i as int) == components(p@),
        decreases p.len() - i,
    {
        if p[i] == '/' {
            let piece = slice(p, start, i);
            if names_something(&piece) {
                let ghost before = out.deep_view();
                out.push(string_of(&piece));
                assert(out.deep_view() =~= before + seq![piece@]);
            }
            start = i + 1;
        }
        i += 1;
    }
    let piece = slice(p, start, p.len());
    if names_something(&piece) {
        let ghost before = out.deep_view();
        out.push(string_of(&piece));
        assert(out.deep_view() =~= before + seq![piece@]);
    }
    out
}

} // verus!
