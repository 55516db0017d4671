//! The album record: what is known about one release in one directory.

use crate::file_type::{name_chars, tag_chars, FileType};
use crate::order::{
    distinct, holds, insert_sorted, is_sorted_union, lemma_sorted_union, lemma_sorted_union_is,
    sorted_union, strictly_sorted,
};
use crate::paths::{join, joined_path};
use crate::tally::{first_most_common, most_common_first_seen};
use crate::text::{
    copy_names, three, append, chars_of, copy_chars, decimal, decimal_of, drop_spaces, ends_with, is_space,
    lower_code, skip_spaces, eq_ignore_case, has_prefix, has_suffix, same_ignoring_case,
    slice, starts_with, string_of, trim, trimmed,
};
use vstd::prelude::*;

verus! {

/// One release as found in one directory.
///
/// `title` and `artist` are what the path gave. `parsed_title` and
/// `parsed_artist` are the normalised forms by which the same release is
/// recognised in another place or format. `tracks` holds file names relative
/// to `dir_path`; `cover_files` holds whole paths.
#[derive(Debug)]
pub struct Album {
    pub title: String,
    pub artist: String,
    pub tracks: Vec<String>,
    pub dir_path: String,
    pub cover_files: Vec<String>,
    pub parsed_title: String,
    pub parsed_artist: String,
}

/// An album as plain sequences of characters.
pub struct AlbumView {
    pub title: Seq<char>,
    pub artist: Seq<char>,
    pub tracks: Seq<Seq<char>>,
    pub dir_path: Seq<char>,
    pub cover_files: Seq<Seq<char>>,
    pub parsed_title: Seq<char>,
    pub parsed_artist: Seq<char>,
}

impl View for Album {
    type V = AlbumView;

    open spec fn view(&self) -> AlbumView {
        AlbumView {
            title: self.title@,
            artist: self.artist@,
            tracks: self.tracks.deep_view(),
            dir_path: self.dir_path@,
            cover_files: self.cover_files.deep_view(),
            parsed_title: self.parsed_title@,
            parsed_artist: self.parsed_artist@,
        }
    }
}

impl DeepView for Album {
    type V = AlbumView;

    open spec fn deep_view(&self) -> AlbumView {
        self@
    }
}

/// The separator between an artist and what follows.
pub open spec fn dash() -> Seq<char> {
    seq![' ', '-', ' ']
}

/// The key of a release: its normalised artist, `###`, its normalised title.
pub open spec fn key_of(parsed_artist: Seq<char>, parsed_title: Seq<char>) -> Seq<char> {
    parsed_artist + seq!['#', '#', '#'] + parsed_title
}

/// `title` without a leading `<artist> - `.
pub open spec fn without_artist(title: Seq<char>, artist: Seq<char>) -> Seq<char> {
    let lead = artist + dash();
    if has_prefix(title, lead) {
        title.subrange(lead.len() as int, title.len() as int)
    } else {
        title
    }
}

/// `s` ends in the name of the format in square brackets, in any case.
pub open spec fn annotated_with(s: Seq<char>, ft: FileType) -> bool {
    let n = name_chars(ft).len();
    &&& s.len() >= n + 2
    &&& s[s.len() - n - 2] == '['
    &&& s[s.len() - 1] == ']'
    &&& same_ignoring_case(s.subrange(s.len() - n - 1, s.len() - 1), name_chars(ft))
}

/// The format whose bracketed name `s` ends in.
pub open spec fn annotation_of(s: Seq<char>) -> Option<FileType> {
    if annotated_with(s, FileType::Flac) {
        Some(FileType::Flac)
    } else if annotated_with(s, FileType::Wav) {
        Some(FileType::Wav)
    } else if annotated_with(s, FileType::MP3) {
        Some(FileType::MP3)
    } else if annotated_with(s, FileType::M4A) {
        Some(FileType::M4A)
    } else {
        None
    }
}

/// `s` trimmed, and without one bracketed format name at its end.
pub open spec fn without_annotation(s: Seq<char>) -> Seq<char> {
    let t = trimmed(s);
    match annotation_of(t) {
        Some(ft) => trimmed(t.subrange(0, t.len() - name_chars(ft).len() - 2)),
        None => t,
    }
}

/// The normalised title: without the artist in front and without the
/// format at the end.
pub open spec fn normal_title(title: Seq<char>, artist: Seq<char>) -> Seq<char> {
    without_annotation(without_artist(title, artist))
}

/// The name of a track ends in a dot and the extension of the format.
pub open spec fn track_of_type(track: Seq<char>, ft: FileType) -> bool {
    has_suffix(track, seq!['.'] + name_chars(ft))
}

/// There is a track, and every track is of the format.
pub open spec fn all_of_type(tracks: Seq<Seq<char>>, ft: FileType) -> bool {
    tracks.len() > 0 && forall|i: int| 0 <= i < tracks.len() ==> track_of_type(#[trigger] tracks[i], ft)
}

/// The format of an album: the one that all its tracks share.
pub open spec fn type_of(tracks: Seq<Seq<char>>) -> Option<FileType> {
    if all_of_type(tracks, FileType::Flac) {
        Some(FileType::Flac)
    } else if all_of_type(tracks, FileType::Wav) {
        Some(FileType::Wav)
    } else if all_of_type(tracks, FileType::MP3) {
        Some(FileType::MP3)
    } else if all_of_type(tracks, FileType::M4A) {
        Some(FileType::M4A)
    } else {
        None
    }
}

/// The name of the directory of an album in a given format: the normalised
/// title, and the format in brackets where one is given.
pub open spec fn dir_name(parsed_title: Seq<char>, ft: Option<FileType>) -> Seq<char> {
    match ft {
        Some(ft) => parsed_title + seq![' ', '['] + tag_chars(ft) + seq![']'],
        None => parsed_title,
    }
}

/// The directory of an album below `root`: artist, then title and format.
pub open spec fn dir_with_ft(a: AlbumView, root: Seq<char>, ft: Option<FileType>) -> Seq<char> {
    joined_path(joined_path(root, a.parsed_artist), dir_name(a.parsed_title, ft))
}

/// The one-line description of an album: artist, title without format,
/// directory, and the numbers of tracks and cover files. The directory
/// stands between double quotes as it is, with nothing in it escaped.
pub open spec fn overview_of(a: AlbumView) -> Seq<char> {
    a.artist + dash() + without_annotation(a.title) + seq![' ', '(', '"'] + a.dir_path + seq![
        '"',
        ';',
        ' ',
    ] + decimal(a.tracks.len()) + seq![' ', 't', 'r', 'a', 'c', 'k', 's', ',', ' '] + decimal(
        a.cover_files.len(),
    ) + seq![' ', 'c', 'o', 'v', 'e', 'r', ' ', 'f', 'i', 'l', 'e', 's', ')']
}

/// The names of `a`, then those of `b` that were not met before, in order.
pub open spec fn union_in_order(a: Seq<Seq<char>>, b: Seq<Seq<char>>) -> Seq<Seq<char>>
    decreases b.len(),
{
    if b.len() == 0 {
        a
    } else {
        let u = union_in_order(a, b.drop_last());
        if u.contains(b.last()) {
            u
        } else {
            u.push(b.last())
        }
    }
}

/// Two records describe the same album in the same directory.
pub open spec fn mergeable(a: AlbumView, b: AlbumView) -> bool {
    a.title == b.title && a.artist == b.artist && a.dir_path == b.dir_path
}

/// The names of a list, each once, in the order in which they are first
/// met.
pub open spec fn each_once(names: Seq<Seq<char>>) -> Seq<Seq<char>> {
    union_in_order(Seq::empty(), names)
}

/// What merging `a` with `b` gives: the fields of `a`, the tracks of both,
/// sorted and without repeats, and the cover files of both, each once, in
/// the order in which they are first met.
pub open spec fn merged(a: AlbumView, b: AlbumView) -> AlbumView {
    AlbumView {
        title: a.title,
        artist: a.artist,
        tracks: sorted_union(a.tracks, b.tracks),
        dir_path: a.dir_path,
        cover_files: each_once(a.cover_files + b.cover_files),
        parsed_title: a.parsed_title,
        parsed_artist: a.parsed_artist,
    }
}

/// Two records that agree in title and artist and lie in different
/// directories cannot be merged.
pub proof fn lemma_merge_needs_one_directory(a: AlbumView, b: AlbumView)
    requires
        a.title == b.title,
        a.artist == b.artist,
        a.dir_path != b.dir_path,
    ensures
        !mergeable(a, b),
{
}

/// The tracks of a merged record are sorted, hold no name twice, and are
/// exactly the tracks of the two records. Its cover files hold no path
/// twice and are exactly the cover files of the two records.
pub proof fn lemma_merge_is_sorted_union(a: AlbumView, b: AlbumView)
    ensures
        strictly_sorted(merged(a, b).tracks),
        distinct(merged(a, b).tracks),
        forall|x: Seq<char>| #[trigger]
            merged(a, b).tracks.contains(x) <==> (a.tracks.contains(x) || b.tracks.contains(x)),
        distinct(merged(a, b).cover_files),
        forall|x: Seq<char>| #[trigger]
            merged(a, b).cover_files.contains(x) <==> (a.cover_files.contains(x)
                || b.cover_files.contains(x)),
        merged(a, b).title == a.title && merged(a, b).artist == a.artist && merged(a, b).dir_path
            == a.dir_path,
{
    lemma_sorted_union(a.tracks, b.tracks);
    let both = a.cover_files + b.cover_files;
    lemma_union_distinct(Seq::empty(), both);
    assert forall|x: Seq<char>| #[trigger]
        merged(a, b).cover_files.contains(x) <==> (a.cover_files.contains(x)
            || b.cover_files.contains(x)) by {
        lemma_union_holds_both(Seq::empty(), both, x);
        if both.contains(x) {
            let i = choose|i: int| 0 <= i < both.len() && both[i] == x;
            if i < a.cover_files.len() {
                assert(a.cover_files[i] == x);
            } else {
                assert(b.cover_files[i - a.cover_files.len()] == x);
            }
        }
        if a.cover_files.contains(x) {
            let i = choose|i: int| 0 <= i < a.cover_files.len() && a.cover_files[i] == x;
            assert(both[i] == x);
        }
        if b.cover_files.contains(x) {
            let i = choose|i: int| 0 <= i < b.cover_files.len() && b.cover_files[i] == x;
            assert(both[a.cover_files.len() + i] == x);
        }
    }
}

/// A list that holds no name twice still holds none twice once the names
/// of another list are added, each only where it is not held yet.
pub proof fn lemma_union_distinct(a: Seq<Seq<char>>, b: Seq<Seq<char>>)
    requires
        distinct(a),
    ensures
        distinct(union_in_order(a, b)),
    decreases b.len(),
{
    if b.len() > 0 {
        lemma_union_distinct(a, b.drop_last());
        let u = union_in_order(a, b.drop_last());
        if !u.contains(b.last()) {
            let w = u.push(b.last());
            assert forall|i: int, j: int| 0 <= i < j < w.len() implies #[trigger] w[i]
                != #[trigger] w[j] by {
                if j < u.len() {
                    assert(u[i] != u[j]);
                } else {
                    assert(u[i] == w[i]);
                }
            }
        }
    }
}

/// Why two records cannot be merged.
#[derive(Clone, Copy, Debug, PartialEq, Eq, Structural)]
pub enum MergeError {
    /// The titles differ.
    TitleDiffers,
    /// The titles agree and the artists differ.
    ArtistDiffers,
    /// Titles and artists agree and the directories differ.
    DirectoryDiffers,
}

/// The union holds exactly the names of the two lists.
pub proof fn lemma_union_holds_both(a: Seq<Seq<char>>, b: Seq<Seq<char>>, x: Seq<char>)
    ensures
        union_in_order(a, b).contains(x) <==> (a.contains(x) || b.contains(x)),
    decreases b.len(),
{
    if b.len() > 0 {
        let u = union_in_order(a, b.drop_last());
        lemma_union_holds_both(a, b.drop_last(), x);
        if b.contains(x) {
            let k = choose|k: int| 0 <= k < b.len() && b[k] == x;
            if k < b.len() - 1 {
                assert(b.drop_last()[k] == x);
            }
        }
        if b.drop_last().contains(x) {
            let k = choose|k: int| 0 <= k < b.drop_last().len() && b.drop_last()[k] == x;
            assert(b[k] == x);
        }
        if !u.contains(b.last()) {
            let w = u.push(b.last());
            assert(w[w.len() - 1] == b.last());
            if u.contains(x) {
                let k = choose|k: int| 0 <= k < u.len() && u[k] == x;
                assert(w[k] == x);
            }
            if w.contains(x) {
                let k = choose|k: int| 0 <= k < w.len() && w[k] == x;
                if k < u.len() {
                    assert(u[k] == x);
                } else {
                    assert(b[b.len() - 1] == x);
                }
            }
        } else {
            assert(b[b.len() - 1] == b.last());
        }
    }
}

/// A format name in square brackets, after a blank.
pub open spec fn bracketed(tag: Seq<char>) -> Seq<char> {
    seq![' ', '['] + tag + seq![']']
}

/// A text that is a format name but for the case of its letters is the
/// name of that format only.
pub proof fn lemma_one_format_per_tag(tag: Seq<char>, a: FileType, b: FileType)
    requires
        same_ignoring_case(tag, name_chars(a)),
        same_ignoring_case(tag, name_chars(b)),
    ensures
        a == b,
{
    let x = name_chars(a);
    let y = name_chars(b);
    assert(lower_code(tag[0]) == lower_code(x[0]));
    assert(lower_code(tag[0]) == lower_code(y[0]));
    assert(lower_code(tag[1]) == lower_code(x[1]));
    assert(lower_code(tag[1]) == lower_code(y[1]));
}

/// A name that does not begin with a space, followed by a format name in
/// brackets, has no space to lose at either end.
pub proof fn lemma_bracketed_is_trimmed(name: Seq<char>, tag: Seq<char>)
    requires
        name.len() > 0,
        !is_space(name[0]),
    ensures
        trimmed(name + bracketed(tag)) == name + bracketed(tag),
{
    let title = name + bracketed(tag);
    let len = title.len() as int;
    assert(title[0] == name[0]);
    assert(title[len - 1] == ']');
    assert(skip_spaces(title, 0) == 0);
    assert(drop_spaces(title, 0, len) == len);
    assert(title.subrange(0, len) =~= title);
}

/// A text that ends in a blank and a format name in brackets, in any
/// case, carries the annotation of that format and of no other.
pub proof fn lemma_bracketed_is_annotated(name: Seq<char>, tag: Seq<char>, ft: FileType)
    requires
        same_ignoring_case(tag, name_chars(ft)),
    ensures
        annotation_of(name + bracketed(tag)) == Some(ft),
{
    let title = name + bracketed(tag);
    let len = title.len() as int;
    let n = tag.len() as int;
    let m = name.len() as int;
    assert(len == m + n + 3);
    assert(title[len - 1] == ']');
    assert(title[m] == ' ');
    assert(title[m + 1] == '[');
    assert(title.subrange(len - n - 1, len - 1) =~= tag);
    assert(annotated_with(title, ft));
    assert forall|other: FileType| other != ft implies !annotated_with(title, other) by {
        let k = name_chars(other).len() as int;
        if annotated_with(title, other) {
            if k == n {
                lemma_one_format_per_tag(tag, ft, other);
            } else if k > n {
                assert(title[len - k - 2] == title[m]);
            } else {
                assert(title[len - k - 2] == tag[0]);
                assert(lower_code(tag[0]) == lower_code(name_chars(ft)[0]));
            }
        }
    }
}

/// A name that neither begins nor ends with a space, followed by a blank,
/// trims to the name.
pub proof fn lemma_blank_is_trimmed_off(name: Seq<char>)
    requires
        name.len() > 0,
        !is_space(name[0]),
        !is_space(name.last()),
    ensures
        trimmed(name.push(' ')) == name,
{
    let head = name.push(' ');
    let m = name.len() as int;
    assert(head[m] == ' ');
    assert(head[m - 1] == name.last());
    assert(head[0] == name[0]);
    assert(skip_spaces(head, 0) == 0);
    assert(drop_spaces(head, 0, m) == m);
    assert(drop_spaces(head, 0, m + 1) == m);
    assert(head.subrange(0, m) =~= name);
}

/// The normalised title leaves the format out: of a name that neither
/// begins nor ends with a space, followed by a blank and a format name in
/// square brackets in any case, the name alone remains.
pub proof fn lemma_annotation_is_dropped(name: Seq<char>, tag: Seq<char>, ft: FileType)
    requires
        name.len() > 0,
        !is_space(name[0]),
        !is_space(name.last()),
        same_ignoring_case(tag, name_chars(ft)),
    ensures
        without_annotation(name + bracketed(tag)) == name,
{
    let title = name + bracketed(tag);
    lemma_bracketed_is_trimmed(name, tag);
    lemma_bracketed_is_annotated(name, tag, ft);
    lemma_blank_is_trimmed_off(name);
    assert(title.subrange(0, title.len() - tag.len() - 2) =~= name.push(' '));
}

/// A title that does not begin with the artist and ` - ` keeps its front,
/// so that its normalised form is the title without the format.
pub proof fn lemma_title_keeps_name_and_drops_format(
    name: Seq<char>,
    tag: Seq<char>,
    ft: FileType,
    artist: Seq<char>,
)
    requires
        name.len() > 0,
        !is_space(name[0]),
        !is_space(name.last()),
        same_ignoring_case(tag, name_chars(ft)),
        !has_prefix(name + bracketed(tag), artist + dash()),
    ensures
        normal_title(name + bracketed(tag), artist) == name,
{
    lemma_annotation_is_dropped(name, tag, ft);
}

/// A track belongs to at most one format.
pub proof fn lemma_one_type_per_track(track: Seq<char>, a: FileType, b: FileType)
    requires
        track_of_type(track, a),
        track_of_type(track, b),
    ensures
        a == b,
{
    let x = seq!['.'] + name_chars(a);
    let y = seq!['.'] + name_chars(b);
    let n = track.len() as int;
    assert(track.subrange(n - x.len(), n)[x.len() - 1] == track[n - 1]);
    assert(track.subrange(n - y.len(), n)[y.len() - 1] == track[n - 1]);
    assert(x[x.len() - 1] == y[y.len() - 1]);
}

/// One more name of `s` is held, or one of those before it.
pub proof fn lemma_take_next_holds(s: Seq<Seq<char>>, i: int, x: Seq<char>)
    requires
        0 <= i < s.len(),
    ensures
        s.take(i + 1).contains(x) <==> (s.take(i).contains(x) || x == s[i]),
{
    let more = s.take(i + 1);
    let less = s.take(i);
    if more.contains(x) {
        let k = choose|k: int| 0 <= k < more.len() && more[k] == x;
        if k < i {
            assert(less[k] == x);
        }
    }
    if less.contains(x) {
        let k = choose|k: int| 0 <= k < less.len() && less[k] == x;
        assert(more[k] == x);
    }
    if x == s[i] {
        assert(more[i] == x);
    }
}

/// Tells whether `s` ends in the bracketed name of `ft`.
pub fn has_annotation(s: &Vec<char>, ft: FileType) -> (r: bool)
    ensures
        r == annotated_with(s@, ft),
{
    let name = chars_of(ft.name());
    let n: usize = name.len();
    let len: usize = s.len();
    assert(n <= 4);
    if len < n + 2 {
        return false;
    }
    if s[len - n - 2] != '[' || s[len - 1] != ']' {
        return false;
    }
    let inner = slice(s, len - n - 1, len - 1);
    eq_ignore_case(&inner, &name)
}

/// Trims `s` and drops one bracketed format name from its end.
pub fn strip_annotation(s: &Vec<char>) -> (r: Vec<char>)
    ensures
        r@ == without_annotation(s@),
{
    let t = trim(s);
    let order = FileType::preference_order();
    let mut i: usize = 0;
    while i < order.len()
        invariant
            i <= order.len(),
            order@ == crate::file_type::preferred(),
            t@ == trimmed(s@),
            forall|k: int| 0 <= k < i ==> !annotated_with(t@, #[trigger] order@[k]),
        decreases order.len() - i,
    {
        let ft = order[i];
        if has_annotation(&t, ft) {
            let n: usize = chars_of(ft.name()).len();
            let head = slice(&t, 0, t.len() - n - 2);
            assert(annotation_of(t@) == Some(ft)) by {
                assert(forall|k: int| 0 <= k < i ==> !annotated_with(t@, #[trigger] order@[k]));
                if i > 0 {
                    assert(!annotated_with(t@, order@[0]));
                }
                if i > 1 {
                    assert(!annotated_with(t@, order@[1]));
                }
                if i > 2 {
                    assert(!annotated_with(t@, order@[2]));
                }
            }

            return trim(&head);
        }
        i += 1;
    }
    assert(annotation_of(t@).is_none()) by {
        assert(!annotated_with(t@, order@[0]));
        assert(!annotated_with(t@, order@[1]));
        assert(!annotated_with(t@, order@[2]));
        assert(!annotated_with(t@, order@[3]));
    }
    t
}

/// Drops a leading `<artist> - ` from `title`.
pub fn strip_artist(title: &Vec<char>, artist: &Vec<char>) -> (r: Vec<char>)
    ensures
        r@ == without_artist(title@, artist@),
{
    let mut lead = copy_chars(artist);
    let sep = three(' ', '-', ' ');
    append(&mut lead, &sep);
    if starts_with(title, &lead) {
        slice(title, lead.len(), title.len())
    } else {
        copy_chars(title)
    }
}

/// The normalised form of `title` for an album by `artist`.
pub fn normalize_title(title: &str, artist: &str) -> (r: String)
    ensures
        r@ == normal_title(title@, artist@),
{
    let t = chars_of(title);
    let a = chars_of(artist);
    let bare = strip_artist(&t, &a);
    let r = strip_annotation(&bare);
    string_of(&r)
}

impl Clone for Album {
    fn clone(&self) -> (r: Album)
        ensures
            r@ == self@,
    {
        Album {
            title: self.title.clone(),
            artist: self.artist.clone(),
            tracks: copy_names(&self.tracks),
            dir_path: self.dir_path.clone(),
            cover_files: copy_names(&self.cover_files),
            parsed_title: self.parsed_title.clone(),
            parsed_artist: self.parsed_artist.clone(),
        }
    }
}

impl Album {
    /// An album with the given fields.
    pub fn new(
        title: String,
        artist: String,
        tracks: Vec<String>,
        dir_path: String,
        cover_files: Vec<String>,
        parsed_title: String,
        parsed_artist: String,
    ) -> (r: Album)
        ensures
            r@ == (AlbumView {
                title: title@,
                artist: artist@,
                tracks: tracks.deep_view(),
                dir_path: dir_path@,
                cover_files: cover_files.deep_view(),
                parsed_title: parsed_title@,
                parsed_artist: parsed_artist@,
            }),
    {
        Album { title, artist, tracks, dir_path, cover_files, parsed_title, parsed_artist }
    }

    /// The key by which the same release is matched across places and formats.
    pub fn key(&self) -> (r: String)
        ensures
            r@ == key_of(self@.parsed_artist, self@.parsed_title),
    {
        let mut k = chars_of(self.parsed_artist.as_str());
        let sep = three('#', '#', '#');
        append(&mut k, &sep);
        let t = chars_of(self.parsed_title.as_str());
        append(&mut k, &t);
        string_of(&k)
    }

    /// The title, trimmed and without a bracketed format name at its end.
    pub fn title_without_filetype(&self) -> (r: String)
        ensures
            r@ == without_annotation(self@.title),
    {
        let t = chars_of(self.title.as_str());
        let r = strip_annotation(&t);
        string_of(&r)
    }

    /// The directory of this album below `root_dir` for the format `ft`.
    pub fn album_dir_with_ft(&self, root_dir: String, ft: &Option<FileType>) -> (r: String)
        ensures
            r@ == dir_with_ft(self@, root_dir@, *ft),
    {
        let mut name = chars_of(self.parsed_title.as_str());
        match ft {
            Some(ft) => {
                name.push(' ');
                name.push('[');
                let tag = chars_of(ft.tag());
                append(&mut name, &tag);
                name.push(']');
                assert(name@ =~= dir_name(self@.parsed_title, Some(*ft)));
            },
            None => {},
        }
        let root = chars_of(root_dir.as_str());
        let artist = chars_of(self.parsed_artist.as_str());
        let below = join(&root, &artist);
        let r = join(&below, &name);
        string_of(&r)
    }

    /// The format that all tracks of this album share, if there is a track
    /// and they share one.
    pub fn file_type(&self) -> (r: Option<FileType>)
        ensures
            r == type_of(self@.tracks),
            match r {
                Some(ft) => all_of_type(self@.tracks, ft),
                None => forall|ft: FileType| !all_of_type(self@.tracks, ft),
            },
    {
        let order = FileType::preference_order();
        let ghost tracks = self.tracks.deep_view();
        let mut i: usize = 0;
        while i < order.len()
            invariant
                i <= order.len(),
                order@ == crate::file_type::preferred(),
                tracks == self.tracks.deep_view(),
                forall|k: int| 0 <= k < i ==> !all_of_type(tracks, #[trigger] order@[k]),
            decreases order.len() - i,
        {
            let ft = order[i];
            if self.tracks_all_of(ft) {
                proof {
                    if i > 0 {
                        assert(!all_of_type(tracks, order@[0]));
                    }
                    if i > 1 {
                        assert(!all_of_type(tracks, order@[1]));
                    }
                    if i > 2 {
                        assert(!all_of_type(tracks, order@[2]));
                    }
                }
                return Some(ft);
            }
            i += 1;
        }
        proof {
            assert(!all_of_type(tracks, order@[0]));
            assert(!all_of_type(tracks, order@[1]));
            assert(!all_of_type(tracks, order@[2]));
            assert(!all_of_type(tracks, order@[3]));
            assert forall|ft: FileType| !all_of_type(tracks, ft) by {
                assert(ft == order@[0] || ft == order@[1] || ft == order@[2] || ft == order@[3]);
            }
        }
        None
    }

    /// One line that describes the album.
    pub fn overview(&self) -> (r: String)
        ensures
            r@ == overview_of(self@),
    {
        let mut out = chars_of(self.artist.as_str());
        let sep = three(' ', '-', ' ');
        append(&mut out, &sep);
        let title = chars_of(self.title_without_filetype().as_str());
        append(&mut out, &title);
        let open = three(' ', '(', '"');
        append(&mut out, &open);
        let dir = chars_of(self.dir_path.as_str());
        append(&mut out, &dir);
        let close = three('"', ';', ' ');
        append(&mut out, &close);
        let n = decimal_of(self.tracks.len());
        append(&mut out, &n);
        proof {
            reveal_strlit(" tracks, ");
            reveal_strlit(" cover files)");
        }
        let tracks = chars_of(" tracks, ");
        assert(tracks@ =~= seq![' ', 't', 'r', 'a', 'c', 'k', 's', ',', ' ']);
        append(&mut out, &tracks);
        let m = decimal_of(self.cover_files.len());
        append(&mut out, &m);
        let covers = chars_of(" cover files)");
        assert(covers@ =~= seq![' ', 'c', 'o', 'v', 'e', 'r', ' ', 'f', 'i', 'l', 'e', 's', ')']);
        append(&mut out, &covers);
        string_of(&out)
    }

    /// Merges this record with another of the same album in the same
    /// directory. The result has the fields of this record, the tracks of
    /// both, sorted and without repeats, and the cover files of both, each
    /// once.
    pub fn merge_with(&self, other: &Album) -> (r: Result<Album, MergeError>)
        ensures
            r.is_ok() == mergeable(self@, other@),
            match r {
                Ok(m) => mergeable(self@, other@) && m@ == merged(self@, other@)
                    && is_sorted_union(m@.tracks, self@.tracks, other@.tracks),
                Err(MergeError::TitleDiffers) => self@.title != other@.title,
                Err(MergeError::ArtistDiffers) => self@.title == other@.title && self@.artist
                    != other@.artist,
                Err(MergeError::DirectoryDiffers) => self@.title == other@.title && self@.artist
                    == other@.artist && self@.dir_path != other@.dir_path,
            },
    {
        if self.title != other.title {
            return Err(MergeError::TitleDiffers);
        }
        if self.artist != other.artist {
            return Err(MergeError::ArtistDiffers);
        }
        if self.dir_path != other.dir_path {
            return Err(MergeError::DirectoryDiffers);
        }
        let ghost a = self.tracks.deep_view();
        let ghost b = other.tracks.deep_view();
        let mut tracks: Vec<String> = Vec::new();
        let mut i: usize = 0;
        while i < self.tracks.len()
            invariant
                i <= self.tracks.len(),
                a == self.tracks.deep_view(),
                strictly_sorted(tracks.deep_view()),
                forall|x: Seq<char>|
                    #[trigger] tracks.deep_view().contains(x) <==> a.take(i as int).contains(x),
            decreases self.tracks.len() - i,
        {
            insert_sorted(&mut tracks, self.tracks[i].clone());
            proof {
                assert forall|x: Seq<char>| tracks.deep_view().contains(x) <==> a.take(
                    i + 1,
                ).contains(x) by {
                    lemma_take_next_holds(a, i as int, x);
                    assert(a[i as int] == self.tracks[i as int]@);
                }
            }
            i += 1;
        }
        assert(a.take(a.len() as int) =~= a);
        let mut j: usize = 0;
        while j < other.tracks.len()
            invariant
                j <= other.tracks.len(),
                b == other.tracks.deep_view(),
                strictly_sorted(tracks.deep_view()),
                forall|x: Seq<char>|
                    #[trigger] tracks.deep_view().contains(x) <==> (a.contains(x) || b.take(
                        j as int,
                    ).contains(x)),
            decreases other.tracks.len() - j,
        {
            insert_sorted(&mut tracks, other.tracks[j].clone());
            proof {
                assert forall|x: Seq<char>|
                    tracks.deep_view().contains(x) <==> (a.contains(x) || b.take(j + 1).contains(
                        x,
                    )) by {
                    lemma_take_next_holds(b, j as int, x);
                    assert(b[j as int] == other.tracks[j as int]@);
                }
            }
            j += 1;
        }
        assert(b.take(b.len() as int) =~= b);
        let ghost c = self.cover_files.deep_view();
        let ghost d = other.cover_files.deep_view();
        let mut covers: Vec<String> = Vec::new();
        let mut h: usize = 0;
        assert(covers.deep_view() =~= each_once(c.take(0)));
        while h < self.cover_files.len()
            invariant
                h <= self.cover_files.len(),
                c == self.cover_files.deep_view(),
                covers.deep_view() == each_once(c.take(h as int)),
            decreases self.cover_files.len() - h,
        {
            let ghost before = covers.deep_view();
            assert(c.take(h + 1).drop_last() =~= c.take(h as int));
            if !holds(&covers, &self.cover_files[h]) {
                covers.push(self.cover_files[h].clone());
                assert(covers.deep_view() =~= before.push(c[h as int]));
            }
            h += 1;
        }
        assert(c.take(c.len() as int) =~= c);
        assert(c + d.take(0) =~= c);
        let mut k: usize = 0;
        while k < other.cover_files.len()
            invariant
                k <= other.cover_files.len(),
                d == other.cover_files.deep_view(),
                covers.deep_view() == each_once(c + d.take(k as int)),
            decreases other.cover_files.len() - k,
        {
            let ghost before = covers.deep_view();
            assert((c + d.take(k + 1)).drop_last() =~= c + d.take(k as int));
            assert((c + d.take(k + 1)).last() == d[k as int]);
            if !holds(&covers, &other.cover_files[k]) {
                covers.push(other.cover_files[k].clone());
                assert(covers.deep_view() =~= before.push(d[k as int]));
            }
            k += 1;
        }
        assert(d.take(d.len() as int) =~= d);
        proof {
            lemma_sorted_union_is(tracks.deep_view(), a, b);
        }
        Ok(
            Album::new(
                self.title.clone(),
                self.artist.clone(),
                tracks,
                self.dir_path.clone(),
                covers,
                self.parsed_title.clone(),
                self.parsed_artist.clone(),
            ),
        )
    }

    /// Corrects the record once it is whole. `album_artists` holds the
    /// album artists that the tracks carry in their tags, in track order.
    /// Where there is one, the most frequent (the first among equals)
    /// replaces the artist and the normalised artist. The normalised title
    /// is then derived anew from the title.
    pub fn finalize(&mut self, album_artists: &Vec<String>)
        ensures
            final(self)@.title == old(self)@.title,
            final(self)@.tracks == old(self)@.tracks,
            final(self)@.dir_path == old(self)@.dir_path,
            final(self)@.cover_files == old(self)@.cover_files,
            album_artists.len() == 0 ==> final(self)@.artist == old(self)@.artist
                && final(self)@.parsed_artist == old(self)@.parsed_artist,
            album_artists.len() > 0 ==> first_most_common(
                album_artists.deep_view(),
                final(self)@.artist,
            ) && final(self)@.parsed_artist == final(self)@.artist,
            final(self)@.parsed_title == normal_title(
                old(self)@.title,
                final(self)@.parsed_artist,
            ),
    {
        match most_common_first_seen(album_artists) {
            Some(name) => {
                self.parsed_artist = name.clone();
                self.artist = name;
            },
            None => {},
        }
        self.parsed_title = normalize_title(self.title.as_str(), self.parsed_artist.as_str());
    }

    /// Tells whether there is a track and every track is of the format `ft`.
    pub fn tracks_all_of(&self, ft: FileType) -> (r: bool)
        ensures
            r == all_of_type(self@.tracks, ft),
    {
        if self.tracks.len() == 0 {
            return false;
        }
        let mut suffix: Vec<char> = Vec::new();
        suffix.push('.');
        let name = chars_of(ft.name());
        append(&mut suffix, &name);
        assert(suffix@ =~= seq!['.'] + name_chars(ft));
        let mut i: usize = 0;
        while i < self.tracks.len()
            invariant
                i <= self.tracks.len(),
                suffix@ == seq!['.'] + name_chars(ft),
                forall|k: int|
                    0 <= k < i ==> track_of_type(#[trigger] self.tracks.deep_view()[k], ft),
            decreases self.tracks.len() - i,
        {
            let t = chars_of(self.tracks[i].as_str());
            if !ends_with(&t, &suffix) {
                assert(!track_of_type(self.tracks.deep_view()[i as int], ft));
                return false;
            }
            i += 1;
        }
        true
    }
}

} // verus!
