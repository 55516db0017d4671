//! Findings about the albums of a collection: what looks wrong in one
//! album, or between two.

use crate::album::{type_of, Album, AlbumView};
use crate::music_tags::{TrackInfo, TrackInfoView};
use crate::paths::{
    components, diff_paths, longer_than, normalize, relative_path, slashed, split_components, steps,
};
use crate::sync::album_key;
use crate::text::{chars_of, decimal, decimal_of, has_prefix, starts_with, string_of};
use vstd::prelude::*;

verus! {

/// What looks wrong in one album.
#[derive(Clone, Copy, Debug, PartialEq, Eq, Structural)]
pub enum Finding {
    /// The album holds no track.
    NoTracks,
    /// The tracks of the album share no format.
    MixedTypes,
}

/// What looks wrong in an album, if anything does.
pub open spec fn finding_of(a: AlbumView) -> Option<Finding> {
    if a.tracks.len() == 0 {
        Some(Finding::NoTracks)
    } else if type_of(a.tracks).is_none() {
        Some(Finding::MixedTypes)
    } else {
        None
    }
}

/// What looks wrong in `album`, if anything does.
pub fn album_issue(album: &Album) -> (r: Option<Finding>)
    ensures
        r == finding_of(album@),
{
    if album.tracks.len() == 0 {
        Some(Finding::NoTracks)
    } else if album.file_type().is_none() {
        Some(Finding::MixedTypes)
    } else {
        None
    }
}

/// The title of a track begins with its number, written plainly or after
/// a zero.
pub open spec fn numbered_title(info: TrackInfoView) -> bool {
    match info.track_number {
        Some(n) => has_prefix(info.title, decimal(n as nat)) || has_prefix(
            info.title,
            seq!['0'] + decimal(n as nat),
        ),
        None => false,
    }
}

/// Tells whether the title of a track begins with its number.
pub fn title_starts_with_number(info: &TrackInfo) -> (r: bool)
    ensures
        r == numbered_title(info@),
{
    match info.track_number {
        None => false,
        Some(n) => {
            let title = chars_of(info.title.as_str());
            let plain = decimal_of(n as usize);
            let mut padded: Vec<char> = Vec::new();
            padded.push('0');
            crate::text::append(&mut padded, &plain);
            assert(padded@ =~= seq!['0'] + decimal(n as nat));
            starts_with(&title, &plain) || starts_with(&title, &padded)
        },
    }
}

/// `a` begins with the names of `b`, in order.
pub open spec fn begins_with(a: Seq<Seq<char>>, b: Seq<Seq<char>>) -> bool {
    b.len() <= a.len() && a.subrange(0, b.len() as int) == b
}

/// The directory of `a` is that of `b` or lies below it.
pub open spec fn lies_below(a: AlbumView, b: AlbumView) -> bool {
    begins_with(components(slashed(a.dir_path)), components(slashed(b.dir_path)))
}

/// Tells whether the directory of `a` is that of `b` or lies below it.
pub fn is_nested_in(a: &Album, b: &Album) -> (r: bool)
    ensures
        r == lies_below(a@, b@),
{
    let x = split_components(&normalize(&chars_of(a.dir_path.as_str())));
    let y = split_components(&normalize(&chars_of(b.dir_path.as_str())));
    if y.len() > x.len() {
        return false;
    }
    let mut i: usize = 0;
    while i < y.len()
        invariant
            i <= y.len() <= x.len(),
            x.deep_view() == components(slashed(a@.dir_path)),
            y.deep_view() == components(slashed(b@.dir_path)),
            forall|k: int| 0 <= k < i ==> x.deep_view()[k] == y.deep_view()[k],
        decreases y.len() - i,
    {
        if x[i] != y[i] {
            assert(x.deep_view().subrange(0, y.len() as int)[i as int] == x.deep_view()[i as int]);
            assert(x.deep_view()[i as int] != y.deep_view()[i as int]);
            return false;
        }
        i += 1;
    }
    assert(x.deep_view().subrange(0, y.len() as int) =~= y.deep_view());
    true
}

/// Two albums hold the same tracks, at least one, under different keys.
pub open spec fn doubles(a: AlbumView, b: AlbumView) -> bool {
    a.tracks.len() > 0 && album_key(a) != album_key(b) && a.tracks == b.tracks
}

/// Tells whether the two albums hold the same tracks under different keys.
pub fn is_duplicate(a: &Album, b: &Album) -> (r: bool)
    ensures
        r == doubles(a@, b@),
{
    if a.tracks.len() == 0 || a.tracks.len() != b.tracks.len() {
        return false;
    }
    if a.key() == b.key() {
        return false;
    }
    let mut i: usize = 0;
    while i < a.tracks.len()
        invariant
            i <= a.tracks.len(),
            a.tracks.len() == b.tracks.len(),
            forall|k: int| 0 <= k < i ==> a@.tracks[k] == b@.tracks[k],
        decreases a.tracks.len() - i,
    {
        if a.tracks[i] != b.tracks[i] {
            assert(a@.tracks[i as int] != b@.tracks[i as int]);
            return false;
        }
        i += 1;
    }
    assert(a@.tracks =~= b@.tracks);
    true
}

/// The way from the root to the directory of the album is longer than two
/// steps, a step up counted like a name. `None` where no way leads from
/// the root to the directory.
pub open spec fn too_deep(a: AlbumView, root: Seq<char>) -> Option<bool> {
    match relative_path(slashed(a.dir_path), slashed(root)) {
        Some(rel) => Some(steps(slashed(rel)) > 2),
        None => None,
    }
}

/// Tells whether the way from `root` to the directory of `album` is
/// longer than two steps.
pub fn is_nested_too_deeply(album: &Album, root: &str) -> (r: Option<bool>)
    ensures
        r == too_deep(album@, root@),
{
    let dir = string_of(&normalize(&chars_of(album.dir_path.as_str())));
    let base = string_of(&normalize(&chars_of(root)));
    match diff_paths(dir.as_str(), base.as_str()) {
        Some(rel) => Some(longer_than(&normalize(&chars_of(rel.as_str())), 2)),
        None => None,
    }
}

} // verus!
