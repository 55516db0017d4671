//! From file paths to albums: the album that one path speaks of, and the
//! albums that a list of paths gives once the records of each directory are
//! merged.

use crate::album::{
    dash, key_of, merged, mergeable, normal_title, normalize_title, strip_artist, type_of,
    without_artist, Album, AlbumView,
};
use crate::file_type::{name_chars, FileType};
use crate::order::strictly_sorted;
use crate::paths::{
    components, diff_paths, extension, extension_of, normalize, parent, parent_of, relative_path,
    slashed, split_components,
};
use crate::text::{
    same_chars, three, chars_of, join, joined, rsplit_once, split_first, split_last, split_once, string_of,
};
use vstd::prelude::*;

verus! {

/// Why a path gives no album.
#[derive(Clone, Copy, Debug, PartialEq, Eq, Structural)]
pub enum ParseError {
    /// No way leads from the root to the path.
    NotBelowRoot,
    /// Fewer than two names lie between the root and the file.
    TooFewComponents,
    /// With two names, neither holds ` - ` where it is looked for.
    MissingDelimiter,
    /// The path has no directory above it.
    NoParent,
}

/// Artist, album and file, as the names between root and file give them.
///
/// Three names are artist, album and file. With more, the names between the
/// first and the last are joined by ` - ` to the album. With two, the first
/// is split at its first ` - ` into artist and album; failing that it is the
/// artist, and the second, without a leading `<artist> - `, is split at its
/// last ` - ` into album and file.
pub open spec fn details_of(parts: Seq<Seq<char>>) -> Result<
    (Seq<char>, Seq<char>, Seq<char>),
    ParseError,
> {
    let n = parts.len() as int;
    if n == 3 {
        Ok((parts[0], parts[1], parts[2]))
    } else if n > 3 {
        Ok((parts[0], joined(parts.subrange(1, n - 1), dash()), parts[n - 1]))
    } else if n == 2 {
        match split_first(parts[0], dash()) {
            Some((artist, album)) => Ok((artist, album, parts[1])),
            None => match split_last(without_artist(parts[1], parts[0]), dash()) {
                Some((album, track)) => Ok((parts[0], album, track)),
                None => Err(ParseError::MissingDelimiter),
            },
        }
    } else {
        Err(ParseError::TooFewComponents)
    }
}

/// The extension of `p` is that of a picture.
pub open spec fn image_path(p: Seq<char>) -> bool {
    match extension_of(p) {
        Some(e) => e == seq!['j', 'p', 'e', 'g'] || e == seq!['j', 'p', 'g'] || e == seq![
            'p',
            'n',
            'g',
        ],
        None => false,
    }
}

/// The extension of `p` is that of an audio format.
pub open spec fn music_path(p: Seq<char>) -> bool {
    match extension_of(p) {
        Some(e) => exists|ft: FileType| e == #[trigger] name_chars(ft),
        None => false,
    }
}

/// The album that the file at `path` speaks of, given the names between the
/// root and the file. Title and artist are taken as found; the normalised
/// title drops the artist in front and the format at the end. A picture is
/// the one cover file, an audio file the one track.
pub open spec fn album_of(parts: Seq<Seq<char>>, path: Seq<char>) -> Result<
    AlbumView,
    ParseError,
> {
    match details_of(parts) {
        Err(e) => Err(e),
        Ok((artist, album, file)) => match parent_of(path) {
            None => Err(ParseError::NoParent),
            Some(dir) => Ok(
                AlbumView {
                    title: album,
                    artist: artist,
                    tracks: if music_path(path) {
                        seq![file]
                    } else {
                        Seq::empty()
                    },
                    dir_path: dir,
                    cover_files: if image_path(path) {
                        seq![path]
                    } else {
                        Seq::empty()
                    },
                    parsed_title: normal_title(album, artist),
                    parsed_artist: artist,
                },
            ),
        },
    }
}

/// The album that the file at `path` below `root` speaks of.
pub open spec fn parsed(path: Seq<char>, root: Seq<char>) -> Result<AlbumView, ParseError> {
    let p = slashed(path);
    match relative_path(p, slashed(root)) {
        None => Err(ParseError::NotBelowRoot),
        Some(rel) => album_of(components(slashed(rel)), p),
    }
}

/// With three names between root and file, the album has exactly the
/// first as its artist, the second as its title, and the third as its one
/// track where the file is an audio file.
pub proof fn lemma_three_names(
    artist: Seq<char>,
    album: Seq<char>,
    file: Seq<char>,
    path: Seq<char>,
)
    requires
        parent_of(path).is_some(),
    ensures
        album_of(seq![artist, album, file], path) matches Ok(a) && a.artist == artist && a.title
            == album && a.parsed_artist == artist && a.tracks == (if music_path(path) {
            seq![file]
        } else {
            Seq::<Seq<char>>::empty()
        }),
{
}

/// An album directory that ends in a format name in brackets: the title
/// keeps it, the normalised title leaves it out.
pub proof fn lemma_title_keeps_the_format(
    artist: Seq<char>,
    name: Seq<char>,
    tag: Seq<char>,
    ft: FileType,
    file: Seq<char>,
    path: Seq<char>,
)
    requires
        parent_of(path).is_some(),
        name.len() > 0,
        !crate::text::is_space(name[0]),
        !crate::text::is_space(name.last()),
        crate::text::same_ignoring_case(tag, name_chars(ft)),
        !crate::text::has_prefix(name + crate::album::bracketed(tag), artist + dash()),
    ensures
        album_of(seq![artist, name + crate::album::bracketed(tag), file], path) matches Ok(a)
            && a.title == name + crate::album::bracketed(tag) && a.parsed_title == name,
{
    crate::album::lemma_title_keeps_name_and_drops_format(name, tag, ft, artist);
}

/// The way `artist/album/file` from the root to a file gives an album with
/// exactly this artist and this title.
pub proof fn lemma_three_segments(
    artist: Seq<char>,
    album: Seq<char>,
    file: Seq<char>,
    path: Seq<char>,
)
    requires
        parent_of(path).is_some(),
        crate::paths::slash_free(artist) && crate::paths::is_normal(artist),
        crate::paths::slash_free(album) && crate::paths::is_normal(album),
        crate::paths::slash_free(file) && crate::paths::is_normal(file),
    ensures
        album_of(
            components(
                artist + crate::text::one('/') + album + crate::text::one('/') + file,
            ),
            path,
        ) matches Ok(a) && a.artist == artist && a.title == album && a.tracks == (if music_path(
            path,
        ) {
            seq![file]
        } else {
            Seq::<Seq<char>>::empty()
        }),
{
    crate::paths::lemma_components_of_three(artist, album, file);
    lemma_three_names(artist, album, file, path);
}

/// Tells whether the file is a picture, by its extension.
pub fn is_image(file: &str) -> (r: bool)
    ensures
        r == image_path(file@),
{
    let p = chars_of(file);
    match extension(&p) {
        None => false,
        Some(e) => {
            let jpg = three('j', 'p', 'g');
            let png = three('p', 'n', 'g');
            let mut jpeg = three('j', 'p', 'e');
            jpeg.push('g');
            assert(jpeg@ =~= seq!['j', 'p', 'e', 'g']);
            same_chars(&e, &jpeg) || same_chars(&e, &jpg) || same_chars(&e, &png)
        },
    }
}

/// Tells whether the file is an audio file, by its extension.
pub fn is_music(file: &str) -> (r: bool)
    ensures
        r == music_path(file@),
{
    let p = chars_of(file);
    match extension(&p) {
        None => false,
        Some(e) => {
            match FileType::from_name(&e) {
                Some(ft) => true,
                None => false,
            }
        },
    }
}

/// Artist, album and file of the names between root and file.
pub fn details_from_parts(parts: &Vec<String>) -> (r: Result<(String, String, String), ParseError>)
    ensures
        match r {
            Ok((artist, album, file)) => details_of(parts.deep_view()) == Ok::<
                (Seq<char>, Seq<char>, Seq<char>),
                ParseError,
            >((artist@, album@, file@)),
            Err(e) => details_of(parts.deep_view()) == Err::<
                (Seq<char>, Seq<char>, Seq<char>),
                ParseError,
            >(e),
        },
{
    let n: usize = parts.len();
    let sep = three(' ', '-', ' ');
    if n == 3 {
        Ok((parts[0].clone(), parts[1].clone(), parts[2].clone()))
    } else if n > 3 {
        let album = join(parts, 1, n - 1, &sep);
        Ok((parts[0].clone(), string_of(&album), parts[n - 1].clone()))
    } else if n == 2 {
        let first = chars_of(parts[0].as_str());
        match split_once(&first, &sep) {
            Some((artist, album)) => Ok((string_of(&artist), string_of(&album), parts[1].clone())),
            None => {
                let second = chars_of(parts[1].as_str());
                let rest = strip_artist(&second, &first);
                match rsplit_once(&rest, &sep) {
                    Some((album, track)) => Ok(
                        (parts[0].clone(), string_of(&album), string_of(&track)),
                    ),
                    None => Err(ParseError::MissingDelimiter),
                }
            },
        }
    } else {
        Err(ParseError::TooFewComponents)
    }
}

/// The album that the file at `path` speaks of, given the names between the
/// root and the file.
pub fn album_from_parts(parts: &Vec<String>, path: &str) -> (r: Result<Album, ParseError>)
    ensures
        match r {
            Ok(a) => album_of(parts.deep_view(), path@) == Ok::<AlbumView, ParseError>(a@),
            Err(e) => album_of(parts.deep_view(), path@) == Err::<AlbumView, ParseError>(e),
        },
{
    match details_from_parts(parts) {
        Err(e) => Err(e),
        Ok((artist, album, file)) => {
            let p = chars_of(path);
            match parent(&p) {
                None => Err(ParseError::NoParent),
                Some(dir) => {
                    let mut tracks: Vec<String> = Vec::new();
                    if is_music(path) {
                        tracks.push(file);
                        assert(tracks.deep_view() =~= seq![file@]);
                    } else {
                        assert(tracks.deep_view() =~= Seq::<Seq<char>>::empty());
                    }
                    let mut covers: Vec<String> = Vec::new();
                    if is_image(path) {
                        covers.push(string_of(&p));
                        assert(covers.deep_view() =~= seq![path@]);
                    } else {
                        assert(covers.deep_view() =~= Seq::<Seq<char>>::empty());
                    }
                    let parsed_title = normalize_title(album.as_str(), artist.as_str());
                    Ok(
                        Album::new(
                            album,
                            artist.clone(),
                            tracks,
                            string_of(&dir),
                            covers,
                            parsed_title,
                            artist,
                        ),
                    )
                },
            }
        },
    }
}

/// The album that the file at `path` below `root_dir` speaks of.
///
/// The two paths are taken with `/` for `\`, and `pathdiff::diff_paths`
/// gives the way from the root to the file, whose names decide.
pub fn path_to_details(path: String, root_dir: String) -> (r: Result<Album, ParseError>)
    ensures
        match r {
            Ok(a) => parsed(path@, root_dir@) == Ok::<AlbumView, ParseError>(a@),
            Err(e) => parsed(path@, root_dir@) == Err::<AlbumView, ParseError>(e),
        },
{
    let p = string_of(&normalize(&chars_of(path.as_str())));
    let root = string_of(&normalize(&chars_of(root_dir.as_str())));
    match diff_paths(p.as_str(), root.as_str()) {
        None => Err(ParseError::NotBelowRoot),
        Some(rel) => {
            let parts = split_components(&normalize(&chars_of(rel.as_str())));
            album_from_parts(&parts, p.as_str())
        },
    }
}

/// The index of the first album at or after `from` that lies in `dir`.
pub open spec fn position_of_dir(albums: Seq<AlbumView>, dir: Seq<char>, from: int) -> Option<int>
    decreases albums.len() - from,
{
    if from < 0 || from >= albums.len() {
        None
    } else if albums[from].dir_path == dir {
        Some(from)
    } else {
        position_of_dir(albums, dir, from + 1)
    }
}

/// The albums once the record `item` is taken in: merged into the album of
/// its directory where there is one and the two agree, left out where they
/// disagree, added at the end where the directory is new.
pub open spec fn with_record(albums: Seq<AlbumView>, item: AlbumView) -> Seq<AlbumView> {
    match position_of_dir(albums, item.dir_path, 0) {
        Some(i) => if mergeable(item, albums[i]) {
            albums.update(i, merged(item, albums[i]))
        } else {
            albums
        },
        None => albums.push(item),
    }
}

/// The albums that the files at `paths` below `root` give, in the order in
/// which their directories are first met. A path that gives no album is
/// passed over.
pub open spec fn grouped(paths: Seq<Seq<char>>, root: Seq<char>) -> Seq<AlbumView>
    decreases paths.len(),
{
    if paths.len() == 0 {
        Seq::empty()
    } else {
        let before = grouped(paths.drop_last(), root);
        match parsed(paths.last(), root) {
            Ok(item) => with_record(before, item),
            Err(_) => before,
        }
    }
}

/// No two albums lie in the same directory.
pub open spec fn dirs_distinct(albums: Seq<AlbumView>) -> bool {
    forall|i: int, j: int|
        0 <= i < j < albums.len() ==> (#[trigger] albums[i]).dir_path != (#[trigger] albums[j]).dir_path
}

/// The tracks of every album are in order, none twice.
pub open spec fn tracks_ordered(albums: Seq<AlbumView>) -> bool {
    forall|i: int| 0 <= i < albums.len() ==> strictly_sorted((#[trigger] albums[i]).tracks)
}

/// Where a directory is found from `from` on, the album there lies in it;
/// where it is not found, no album from `from` on lies in it.
pub proof fn lemma_position_of_dir(albums: Seq<AlbumView>, dir: Seq<char>, from: int)
    requires
        0 <= from,
    ensures
        match position_of_dir(albums, dir, from) {
            Some(i) => from <= i < albums.len() && albums[i].dir_path == dir,
            None => forall|j: int|
                from <= j < albums.len() ==> (#[trigger] albums[j]).dir_path != dir,
        },
    decreases albums.len() - from,
{
    if from < albums.len() && albums[from].dir_path != dir {
        lemma_position_of_dir(albums, dir, from + 1);
    }
}

/// The record that one path gives holds at most one track.
pub proof fn lemma_one_track_per_path(parts: Seq<Seq<char>>, path: Seq<char>)
    ensures
        album_of(parts, path) matches Ok(a) ==> a.tracks.len() <= 1 && strictly_sorted(a.tracks),
{
}

/// Taking in a record whose tracks are in order keeps the directories of
/// the albums apart and the tracks of each album in order.
pub proof fn lemma_with_record_keeps_order(albums: Seq<AlbumView>, item: AlbumView)
    requires
        dirs_distinct(albums),
        tracks_ordered(albums),
        strictly_sorted(item.tracks),
    ensures
        dirs_distinct(with_record(albums, item)),
        tracks_ordered(with_record(albums, item)),
{
    lemma_position_of_dir(albums, item.dir_path, 0);
    let after = with_record(albums, item);
    match position_of_dir(albums, item.dir_path, 0) {
        Some(i) => {
            if mergeable(item, albums[i]) {
                crate::order::lemma_sorted_union(item.tracks, albums[i].tracks);
                assert forall|a: int, b: int| 0 <= a < b < after.len() implies (
                #[trigger] after[a]).dir_path != (#[trigger] after[b]).dir_path by {
                    assert(after[a].dir_path == albums[a].dir_path);
                    assert(after[b].dir_path == albums[b].dir_path);
                }
                assert forall|a: int| 0 <= a < after.len() implies strictly_sorted(
                    (#[trigger] after[a]).tracks,
                ) by {
                    if a != i {
                        assert(after[a] == albums[a]);
                    }
                }
            }
        },
        None => {
            assert forall|a: int, b: int| 0 <= a < b < after.len() implies (
            #[trigger] after[a]).dir_path != (#[trigger] after[b]).dir_path by {
                assert(after[a] == albums[a]);
                if b < albums.len() {
                    assert(after[b] == albums[b]);
                }
            }
            assert forall|a: int| 0 <= a < after.len() implies strictly_sorted(
                (#[trigger] after[a]).tracks,
            ) by {
                if a < albums.len() {
                    assert(after[a] == albums[a]);
                }
            }
        },
    }
}

/// The albums that a list of paths gives lie in different directories, and
/// the tracks of each are in order, none twice.
pub proof fn lemma_grouped_in_order(paths: Seq<Seq<char>>, root: Seq<char>)
    ensures
        dirs_distinct(grouped(paths, root)),
        tracks_ordered(grouped(paths, root)),
    decreases paths.len(),
{
    if paths.len() > 0 {
        lemma_grouped_in_order(paths.drop_last(), root);
        let p = slashed(paths.last());
        match parsed(paths.last(), root) {
            Ok(item) => {
                let rel = relative_path(p, slashed(root))->0;
                lemma_one_track_per_path(components(slashed(rel)), p);
                lemma_with_record_keeps_order(grouped(paths.drop_last(), root), item);
            },
            Err(_) => {},
        }
    }
}

/// The albums take account of the record `item`: an album lies in its
/// directory, and where the two agree in title and artist, that album
/// holds the tracks and the cover files of the record.
pub open spec fn holds_record(albums: Seq<AlbumView>, item: AlbumView) -> bool {
    exists|i: int|
        0 <= i < albums.len() && (#[trigger] albums[i]).dir_path == item.dir_path && (mergeable(
            item,
            albums[i],
        ) ==> (forall|x: Seq<char>|
            item.tracks.contains(x) ==> #[trigger] albums[i].tracks.contains(x)) && (forall|
            x: Seq<char>,
        |
            item.cover_files.contains(x) ==> #[trigger] albums[i].cover_files.contains(x)))
}

/// Once a record is taken in, the albums take account of it, and of every
/// record of which they took account before.
pub proof fn lemma_with_record_holds(albums: Seq<AlbumView>, item: AlbumView, other: AlbumView)
    ensures
        holds_record(with_record(albums, item), item),
        holds_record(albums, other) ==> holds_record(with_record(albums, item), other),
{
    lemma_position_of_dir(albums, item.dir_path, 0);
    let after = with_record(albums, item);
    match position_of_dir(albums, item.dir_path, 0) {
        Some(i) => {
            if mergeable(item, albums[i]) {
                crate::album::lemma_merge_is_sorted_union(item, albums[i]);
                assert(after[i] == merged(item, albums[i]));
                assert(after[i].dir_path == item.dir_path);
                if holds_record(albums, other) {
                    let w = choose|w: int|
                        0 <= w < albums.len() && (#[trigger] albums[w]).dir_path == other.dir_path
                            && (mergeable(other, albums[w]) ==> (forall|x: Seq<char>|
                            other.tracks.contains(x) ==> #[trigger] albums[w].tracks.contains(x))
                            && (forall|x: Seq<char>|
                            other.cover_files.contains(x)
                                ==> #[trigger] albums[w].cover_files.contains(x)));
                    if w != i {
                        assert(after[w] == albums[w]);
                    } else {
                        assert(after[w].dir_path == other.dir_path);
                    }
                }
            } else {
                assert(after[i].dir_path == item.dir_path);
            }
        },
        None => {
            assert(after[albums.len() as int] == item);
            if holds_record(albums, other) {
                let w = choose|w: int|
                    0 <= w < albums.len() && (#[trigger] albums[w]).dir_path == other.dir_path
                        && (mergeable(other, albums[w]) ==> (forall|x: Seq<char>|
                        other.tracks.contains(x) ==> #[trigger] albums[w].tracks.contains(x))
                        && (forall|x: Seq<char>|
                        other.cover_files.contains(x)
                            ==> #[trigger] albums[w].cover_files.contains(x)));
                assert(after[w] == albums[w]);
            }
        },
    }
}

/// The albums that a list of paths gives take account of the record of
/// each path: for each path that gives a record, an album lies in the
/// directory of the record, and where the two agree in title and artist it
/// holds the track and the cover file of the record.
pub proof fn lemma_grouped_holds_records(paths: Seq<Seq<char>>, root: Seq<char>, j: int)
    requires
        0 <= j < paths.len(),
    ensures
        parsed(paths[j], root) matches Ok(item) ==> holds_record(grouped(paths, root), item),
    decreases paths.len(),
{
    let before = grouped(paths.drop_last(), root);
    match parsed(paths[j], root) {
        Ok(item) => {
            if j < paths.len() - 1 {
                lemma_grouped_holds_records(paths.drop_last(), root, j);
                assert(paths.drop_last()[j] == paths[j]);
                match parsed(paths.last(), root) {
                    Ok(last) => {
                        lemma_with_record_holds(before, last, item);
                    },
                    Err(_) => {},
                }
            } else {
                lemma_with_record_holds(before, item, item);
            }
        },
        Err(_) => {},
    }
}

/// Finds the first album that lies in `dir`.
pub fn find_dir(albums: &Vec<Album>, dir: &String) -> (r: Option<usize>)
    ensures
        match r {
            Some(i) => position_of_dir(albums.deep_view(), dir@, 0) == Some(i as int) && i
                < albums.len() && albums[i as int]@.dir_path == dir@,
            None => position_of_dir(albums.deep_view(), dir@, 0).is_none(),
        },
{
    let mut i: usize = 0;
    while i < albums.len()
        invariant
            i <= albums.len(),
            position_of_dir(albums.deep_view(), dir@, 0) == position_of_dir(
                albums.deep_view(),
                dir@,
                i as int,
            ),
        decreases albums.len() - i,
    {
        if albums[i].dir_path == *dir {
            return Some(i);
        }
        i += 1;
    }
    None
}

/// Groups the files at `file_paths` below `root` into albums, one for each
/// directory, merging the records of the files of one directory.
pub fn group_files_into_albums(file_paths: &Vec<String>, root: &str) -> (r: Vec<Album>)
    ensures
        r.deep_view() == grouped(file_paths.deep_view(), root@),
        dirs_distinct(r.deep_view()),
        tracks_ordered(r.deep_view()),
{
    let ghost paths = file_paths.deep_view();
    let mut out: Vec<Album> = Vec::new();
    let mut i: usize = 0;
    assert(out.deep_view() =~= Seq::<AlbumView>::empty());
    while i < file_paths.len()
        invariant
            i <= file_paths.len(),
            paths == file_paths.deep_view(),
            out.deep_view() == grouped(paths.take(i as int), root@),
        decreases file_paths.len() - i,
    {
        let ghost before = out.deep_view();
        proof {
            assert(paths.take(i + 1).drop_last() =~= paths.take(i as int));
            assert(paths.take(i + 1).last() == file_paths[i as int]@);
        }
        match path_to_details(file_paths[i].clone(), root.to_owned()) {
            Ok(album) => {
                match find_dir(&out, &album.dir_path) {
                    Some(k) => {
                        match album.merge_with(&out[k]) {
                            Ok(m) => {
                                let ghost mv = m@;
                                out.set(k, m);
                                assert(out.deep_view() =~= before.update(k as int, mv));
                            },
                            Err(_) => {},
                        }
                    },
                    None => {
                        let ghost av = album@;
                        out.push(album);
                        assert(out.deep_view() =~= before.push(av));
                    },
                }
            },
            Err(_) => {},
        }
        i += 1;
    }
    assert(paths.take(paths.len() as int) =~= paths);
    proof {
        lemma_grouped_in_order(paths, root@);
    }
    out
}

/// One album of a source root, as the index holds it.
#[derive(Debug)]
pub struct SourceEntry {
    pub key: String,
    pub file_type: FileType,
    pub album: Album,
    pub root: String,
}

/// An entry of the index as plain values.
pub struct EntryView {
    pub key: Seq<char>,
    pub file_type: FileType,
    pub album: AlbumView,
    pub root: Seq<char>,
}

impl View for SourceEntry {
    type V = EntryView;

    open spec fn view(&self) -> EntryView {
        EntryView {
            key: self.key@,
            file_type: self.file_type,
            album: self.album@,
            root: self.root@,
        }
    }
}

impl DeepView for SourceEntry {
    type V = EntryView;

    open spec fn deep_view(&self) -> EntryView {
        self@
    }
}

/// The albums of one source root.
#[derive(Debug)]
pub struct Source {
    pub root: String,
    pub albums: Vec<Album>,
}

/// A source root and its albums as plain values.
pub struct SourceView {
    pub root: Seq<char>,
    pub albums: Seq<AlbumView>,
}

impl View for Source {
    type V = SourceView;

    open spec fn view(&self) -> SourceView {
        SourceView { root: self.root@, albums: self.albums.deep_view() }
    }
}

impl DeepView for Source {
    type V = SourceView;

    open spec fn deep_view(&self) -> SourceView {
        self@
    }
}

/// The source albums by key and format, in the order in which each pair of
/// key and format was first met.
#[derive(Debug)]
pub struct SourceIndex {
    pub entries: Vec<SourceEntry>,
}

impl View for SourceIndex {
    type V = Seq<EntryView>;

    open spec fn view(&self) -> Seq<EntryView> {
        self.entries.deep_view()
    }
}

/// The index of the first entry at or after `from` with the key and format.
pub open spec fn entry_position(
    entries: Seq<EntryView>,
    key: Seq<char>,
    ft: FileType,
    from: int,
) -> Option<int>
    decreases entries.len() - from,
{
    if from < 0 || from >= entries.len() {
        None
    } else if entries[from].key == key && entries[from].file_type == ft {
        Some(from)
    } else {
        entry_position(entries, key, ft, from + 1)
    }
}

/// The entry with the key and format.
pub open spec fn lookup(entries: Seq<EntryView>, key: Seq<char>, ft: FileType) -> Option<
    EntryView,
> {
    match entry_position(entries, key, ft, 0) {
        Some(i) => Some(entries[i]),
        None => None,
    }
}

/// The entry that stands for `album` found below `root`, where the format
/// of the album is `ft`.
pub open spec fn entry_for(album: AlbumView, root: Seq<char>, ft: FileType) -> EntryView {
    EntryView {
        key: key_of(album.parsed_artist, album.parsed_title),
        file_type: ft,
        album: album,
        root: root,
    }
}

/// The index once `album` is put in: an album without a format is left out;
/// one whose key and format are there already takes the place of the older.
pub open spec fn with_album(entries: Seq<EntryView>, album: AlbumView, root: Seq<char>) -> Seq<
    EntryView,
> {
    match type_of(album.tracks) {
        None => entries,
        Some(ft) => {
            let e = entry_for(album, root, ft);
            match entry_position(entries, e.key, ft, 0) {
                Some(i) => entries.update(i, e),
                None => entries.push(e),
            }
        },
    }
}

/// The index once the albums of one root are put in, in order.
pub open spec fn with_albums(entries: Seq<EntryView>, albums: Seq<AlbumView>, root: Seq<char>) -> Seq<
    EntryView,
>
    decreases albums.len(),
{
    if albums.len() == 0 {
        entries
    } else {
        with_album(with_albums(entries, albums.drop_last(), root), albums.last(), root)
    }
}

/// The index of the albums of all sources, the sources taken in order.
pub open spec fn index_of(sources: Seq<SourceView>) -> Seq<EntryView>
    decreases sources.len(),
{
    if sources.len() == 0 {
        Seq::empty()
    } else {
        with_albums(index_of(sources.drop_last()), sources.last().albums, sources.last().root)
    }
}

/// Each entry carries the key and the format of its album, and no two
/// entries share both.
pub open spec fn index_wf(entries: Seq<EntryView>) -> bool {
    &&& forall|i: int|
        0 <= i < entries.len() ==> (#[trigger] entries[i]).key == key_of(
            entries[i].album.parsed_artist,
            entries[i].album.parsed_title,
        ) && type_of(entries[i].album.tracks) == Some(entries[i].file_type)
    &&& forall|i: int, j: int|
        0 <= i < j < entries.len() ==> !((#[trigger] entries[i]).key == (#[trigger] entries[j]).key
            && entries[i].file_type == entries[j].file_type)
}

/// Where a key and format are found from `from` on, the entry there has
/// them, and no entry between `from` and it has.
pub proof fn lemma_entry_position(entries: Seq<EntryView>, key: Seq<char>, ft: FileType, from: int)
    requires
        0 <= from,
    ensures
        match entry_position(entries, key, ft, from) {
            Some(i) => from <= i < entries.len() && entries[i].key == key && entries[i].file_type
                == ft && forall|j: int|
                from <= j < i ==> !((#[trigger] entries[j]).key == key && entries[j].file_type
                    == ft),
            None => forall|j: int|
                from <= j < entries.len() ==> !((#[trigger] entries[j]).key == key
                    && entries[j].file_type == ft),
        },
    decreases entries.len() - from,
{
    if from < entries.len() && !(entries[from].key == key && entries[from].file_type == ft) {
        lemma_entry_position(entries, key, ft, from + 1);
    }
}

/// Putting an album into the index changes nothing under another key or
/// format.
pub proof fn lemma_put_keeps_others(
    entries: Seq<EntryView>,
    album: AlbumView,
    root: Seq<char>,
    key: Seq<char>,
    ft: FileType,
    from: int,
)
    requires
        0 <= from,
        type_of(album.tracks) matches Some(has) && !(key == key_of(
            album.parsed_artist,
            album.parsed_title,
        ) && ft == has),
    ensures
        entry_position(with_album(entries, album, root), key, ft, from) == entry_position(
            entries,
            key,
            ft,
            from,
        ),
    decreases entries.len() + 1 - from,
{
    let has = type_of(album.tracks)->0;
    let e = entry_for(album, root, has);
    let after = with_album(entries, album, root);
    lemma_entry_position(entries, e.key, has, 0);
    if from < after.len() {
        lemma_put_keeps_others(entries, album, root, key, ft, from + 1);
        if from < entries.len() {
            if after[from] != entries[from] {
                assert(entry_position(entries, e.key, has, 0) == Some(from));
            }
        }
    }
}

/// An album that was put into the index is found there under its key and
/// format, from any index up to its place.
pub proof fn lemma_put_is_found(
    entries: Seq<EntryView>,
    album: AlbumView,
    root: Seq<char>,
    from: int,
)
    requires
        type_of(album.tracks).is_some(),
        0 <= from,
        from <= (match entry_position(
            entries,
            key_of(album.parsed_artist, album.parsed_title),
            type_of(album.tracks)->0,
            0,
        ) {
            Some(i) => i,
            None => entries.len() as int,
        }),
    ensures
        entry_position(
            with_album(entries, album, root),
            key_of(album.parsed_artist, album.parsed_title),
            type_of(album.tracks)->0,
            from,
        ) matches Some(i) && with_album(entries, album, root)[i] == entry_for(
            album,
            root,
            type_of(album.tracks)->0,
        ),
    decreases entries.len() + 1 - from,
{
    let has = type_of(album.tracks)->0;
    let e = entry_for(album, root, has);
    let after = with_album(entries, album, root);
    lemma_entry_position(entries, e.key, has, 0);
    let place = match entry_position(entries, e.key, has, 0) {
        Some(i) => i,
        None => entries.len() as int,
    };
    if from < place {
        assert(after[from] == entries[from]);
        lemma_put_is_found(entries, album, root, from + 1);
    } else {
        assert(after[place] == e);
    }
}

/// Putting an album into a well-formed index leaves it well-formed.
pub proof fn lemma_with_album_wf(entries: Seq<EntryView>, album: AlbumView, root: Seq<char>)
    requires
        index_wf(entries),
    ensures
        index_wf(with_album(entries, album, root)),
{
    match type_of(album.tracks) {
        None => {},
        Some(ft) => {
            let e = entry_for(album, root, ft);
            lemma_entry_position(entries, e.key, ft, 0);
            let after = with_album(entries, album, root);
            match entry_position(entries, e.key, ft, 0) {
                Some(i) => {
                    assert forall|a: int, b: int| 0 <= a < b < after.len() implies !((
                    #[trigger] after[a]).key == (#[trigger] after[b]).key && after[a].file_type
                        == after[b].file_type) by {
                        if a == i {
                            assert(entries[b].key == after[b].key);
                        } else if b == i {
                            assert(entries[a].key == after[a].key);
                        } else {
                            assert(entries[a].key == after[a].key);
                            assert(entries[b].key == after[b].key);
                        }
                    }
                },
                None => {
                    assert forall|a: int, b: int| 0 <= a < b < after.len() implies !((
                    #[trigger] after[a]).key == (#[trigger] after[b]).key && after[a].file_type
                        == after[b].file_type) by {
                        if b < entries.len() {
                            assert(entries[a].key == after[a].key);
                            assert(entries[b].key == after[b].key);
                        } else {
                            assert(entries[a].key == after[a].key);
                        }
                    }
                },
            }
        },
    }
}

/// Putting albums into a well-formed index leaves it well-formed.
pub proof fn lemma_with_albums_wf(entries: Seq<EntryView>, albums: Seq<AlbumView>, root: Seq<char>)
    requires
        index_wf(entries),
    ensures
        index_wf(with_albums(entries, albums, root)),
    decreases albums.len(),
{
    if albums.len() > 0 {
        lemma_with_albums_wf(entries, albums.drop_last(), root);
        lemma_with_album_wf(with_albums(entries, albums.drop_last(), root), albums.last(), root);
    }
}

/// The index of any sources is well-formed.
pub proof fn lemma_index_wf(sources: Seq<SourceView>)
    ensures
        index_wf(index_of(sources)),
    decreases sources.len(),
{
    if sources.len() > 0 {
        lemma_index_wf(sources.drop_last());
        lemma_with_albums_wf(
            index_of(sources.drop_last()),
            sources.last().albums,
            sources.last().root,
        );
    }
}

impl SourceIndex {
    /// The empty index.
    pub fn new() -> (r: SourceIndex)
        ensures
            r@ == Seq::<EntryView>::empty(),
    {
        let r = SourceIndex { entries: Vec::new() };
        assert(r@ =~= Seq::<EntryView>::empty());
        r
    }

    /// The position of the entry with the key and format.
    pub fn position(&self, key: &String, ft: FileType) -> (r: Option<usize>)
        ensures
            match r {
                Some(i) => entry_position(self@, key@, ft, 0) == Some(i as int) && i
                    < self.entries.len(),
                None => entry_position(self@, key@, ft, 0).is_none(),
            },
    {
        let mut i: usize = 0;
        while i < self.entries.len()
            invariant
                i <= self.entries.len(),
                entry_position(self@, key@, ft, 0) == entry_position(self@, key@, ft, i as int),
            decreases self.entries.len() - i,
        {
            if self.entries[i].key == *key && self.entries[i].file_type == ft {
                return Some(i);
            }
            i += 1;
        }
        None
    }

    /// The entry with the key and format.
    pub fn get(&self, key: &String, ft: FileType) -> (r: Option<&SourceEntry>)
        ensures
            match r {
                Some(e) => lookup(self@, key@, ft) == Some(e@),
                None => lookup(self@, key@, ft).is_none(),
            },
    {
        match self.position(key, ft) {
            Some(i) => Some(&self.entries[i]),
            None => None,
        }
    }

    /// Puts `album`, found below `root`, into the index. An album whose
    /// tracks share no format is left out; an album whose key and format
    /// are there already takes the place of the older one.
    pub fn insert(&mut self, album: Album, root: String)
        ensures
            final(self)@ == with_album(old(self)@, album@, root@),
    {
        let ghost before = self@;
        match album.file_type() {
            None => {},
            Some(ft) => {
                let key = album.key();
                let found = self.position(&key, ft);
                let ghost e = entry_for(album@, root@, ft);
                let entry = SourceEntry { key: key, file_type: ft, album: album, root: root };
                assert(entry@ == e);
                match found {
                    Some(i) => {
                        self.entries.set(i, entry);
                        assert(self@ =~= before.update(i as int, e));
                    },
                    None => {
                        self.entries.push(entry);
                        assert(self@ =~= before.push(e));
                    },
                }
            },
        }
    }
}

/// The index of the albums of the sources, by key and format. The sources
/// are taken in order, and so are the albums of each; an album whose tracks
/// share no format is left out, and of two albums with the same key and
/// format the later one stays.
pub fn create_source_album_lookup(sources: &Vec<Source>) -> (r: SourceIndex)
    ensures
        r@ == index_of(sources.deep_view()),
        index_wf(r@),
{
    let ghost all = sources.deep_view();
    let mut index = SourceIndex::new();
    let mut i: usize = 0;
    while i < sources.len()
        invariant
            i <= sources.len(),
            all == sources.deep_view(),
            index@ == index_of(all.take(i as int)),
        decreases sources.len() - i,
    {
        let source = &sources[i];
        let ghost albums = source.albums.deep_view();
        let ghost start = index@;
        let mut j: usize = 0;
        while j < source.albums.len()
            invariant
                j <= source.albums.len(),
                albums == source.albums.deep_view(),
                index@ == with_albums(start, albums.take(j as int), source.root@),
            decreases source.albums.len() - j,
        {
            proof {
                assert(albums.take(j + 1).drop_last() =~= albums.take(j as int));
                assert(albums.take(j + 1).last() == source.albums[j as int]@);
            }
            index.insert(source.albums[j].clone(), source.root.clone());
            j += 1;
        }
        proof {
            assert(albums.take(albums.len() as int) =~= albums);
            assert(all.take(i + 1).drop_last() =~= all.take(i as int));
            assert(all.take(i + 1).last() == sources[i as int]@);
        }
        i += 1;
    }
    proof {
        assert(all.take(all.len() as int) =~= all);
        lemma_index_wf(all);
    }
    index
}

} // verus!
