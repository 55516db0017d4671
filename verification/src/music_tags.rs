//! The tags of a track: what the name of its file says about it, and which
//! tags are written given what the file carries and what is known about its
//! album.

use crate::album::{dash, type_of, Album, AlbumView};
use crate::file_type::FileType;
use crate::music_info::{text_of, AlbumInfo, AlbumInfoView};
use crate::numbers::{parse_u16, u16_of};
use crate::text::{
    single, three, append, chars_of, has_at, occurs_at, replace_all, replaced, rsplit_once, slice, split_first,
    split_last, split_once, string_of, trim, trimmed,
};
use regex::Regex;
use vstd::prelude::*;

verus! {

/// What the name of the file of a track says about it.
#[derive(Debug)]
pub struct TrackInfo {
    pub title: String,
    pub disc_number: Option<u16>,
    pub track_number: Option<u16>,
}

/// What the name of a file says about a track, as plain values.
pub struct TrackInfoView {
    pub title: Seq<char>,
    pub disc_number: Option<u16>,
    pub track_number: Option<u16>,
}

impl View for TrackInfo {
    type V = TrackInfoView;

    open spec fn view(&self) -> TrackInfoView {
        TrackInfoView {
            title: self.title@,
            disc_number: self.disc_number,
            track_number: self.track_number,
        }
    }
}

/// The tags of a track, as far as they are read and written.
#[derive(Debug)]
pub struct TrackTags {
    pub album_title: Option<String>,
    pub album_artist: Option<String>,
    pub artist: Option<String>,
    pub title: Option<String>,
    pub year: Option<i32>,
    pub disc_number: Option<u16>,
    pub track_number: Option<u16>,
}

/// The tags of a track as plain values.
pub struct TrackTagsView {
    pub album_title: Option<Seq<char>>,
    pub album_artist: Option<Seq<char>>,
    pub artist: Option<Seq<char>>,
    pub title: Option<Seq<char>>,
    pub year: Option<i32>,
    pub disc_number: Option<u16>,
    pub track_number: Option<u16>,
}

impl View for TrackTags {
    type V = TrackTagsView;

    open spec fn view(&self) -> TrackTagsView {
        TrackTagsView {
            album_title: text_of(self.album_title),
            album_artist: text_of(self.album_artist),
            artist: text_of(self.artist),
            title: text_of(self.title),
            year: self.year,
            disc_number: self.disc_number,
            track_number: self.track_number,
        }
    }
}

/// What `regex::Regex::captures` finds in a text for a pattern: nothing,
/// or what the first two groups of the pattern hold at the first match.
pub uninterp spec fn pattern_groups(pattern: Seq<char>, text: Seq<char>) -> Option<
    (Option<Seq<char>>, Option<Seq<char>>),
>;

/// The pattern for the numbers in front of the name of a track: digits and
/// a hyphen, which may be missing, then digits.
pub open spec fn number_pattern() -> Seq<char> {
    "(\\d+-)?(\\d+)"@
}

/// What the pattern for the numbers finds in a text.
pub open spec fn number_match(text: Seq<char>) -> Option<(Option<Seq<char>>, Option<Seq<char>>)> {
    pattern_groups(number_pattern(), text)
}

/// What the two groups hold, as plain values.
pub open spec fn groups_of(g: Option<(Option<String>, Option<String>)>) -> Option<
    (Option<Seq<char>>, Option<Seq<char>>),
> {
    match g {
        Some((a, b)) => Some((text_of(a), text_of(b))),
        None => None,
    }
}

/// Compiles `pattern` with `regex::Regex::new`, matches `text` against it
/// with `regex::Regex::captures`, and hands back what the first two groups
/// hold. The contract only gives that its name.
#[verifier::external_body]
pub(crate) fn first_groups(pattern: &str, text: &str) -> (r: Option<
    (Option<String>, Option<String>),
>)
    ensures
        groups_of(r) == pattern_groups(pattern@, text@),
{
    let found = Regex::new(pattern).ok()?.captures(text)?;
    let first = found.get(1).map(|m| m.as_str().to_string());
    let second = found.get(2).map(|m| m.as_str().to_string());
    Some((first, second))
}

/// What the pattern for the numbers finds in `text`.
pub fn number_groups(text: &str) -> (r: Option<(Option<String>, Option<String>)>)
    ensures
        groups_of(r) == number_match(text@),
{
    first_groups("(\\d+-)?(\\d+)", text)
}

/// The index at which `s` goes on once `pat` is dropped from its front as
/// often as it stands there, the scan standing at `i`.
pub open spec fn front_end(s: Seq<char>, pat: Seq<char>, i: int) -> int
    decreases s.len() - i,
{
    if pat.len() > 0 && occurs_at(s, pat, i) {
        front_end(s, pat, i + pat.len())
    } else {
        i
    }
}

/// `s` without `pat` at its front, as often as it stands there.
pub open spec fn stripped_front(s: Seq<char>, pat: Seq<char>) -> Seq<char> {
    s.subrange(front_end(s, pat, 0), s.len() as int)
}

/// `s` with every `<name> - ` removed, for the names in order.
pub open spec fn without_names(s: Seq<char>, names: Seq<Seq<char>>) -> Seq<char>
    decreases names.len(),
{
    if names.len() == 0 {
        s
    } else {
        replaced(without_names(s, names.drop_last()), names.last() + dash(), Seq::empty())
    }
}

/// The title that the name of a file gives: without `- ` at its front,
/// without the names of artist and album, trimmed.
pub open spec fn clean_title(name: Seq<char>, names: Seq<Seq<char>>) -> Seq<char> {
    trimmed(without_names(stripped_front(name, seq!['-', ' ']), names))
}

/// The title that the path of a track gives: what stands between its first
/// blank and its last dot, cleaned. `None` where one of the two is missing.
pub open spec fn title_in(path: Seq<char>, names: Seq<Seq<char>>) -> Option<Seq<char>> {
    match split_first(path, seq![' ']) {
        None => None,
        Some((_, tail)) => match split_last(tail, seq!['.']) {
            None => None,
            Some((name, _)) => Some(clean_title(name, names)),
        },
    }
}

/// The number that a group holds.
pub open spec fn group_number(g: Option<Seq<char>>) -> Option<u16> {
    match g {
        Some(t) => u16_of(t),
        None => None,
    }
}

/// The numbers of disc and track that the groups found in the front of a
/// path give.
pub open spec fn numbers_in(
    path: Seq<char>,
    groups: Option<(Option<Seq<char>>, Option<Seq<char>>)>,
) -> (Option<u16>, Option<u16>) {
    match split_first(path, seq![' ']) {
        None => (None, None),
        Some(_) => match groups {
            None => (None, None),
            Some((disc, track)) => (group_number(disc), group_number(track)),
        },
    }
}

/// The names that are removed from the title of a track.
pub open spec fn names_around(album: AlbumView, info: AlbumInfoView) -> Seq<Seq<char>> {
    seq![info.artist, album.artist, info.title, album.parsed_artist, album.parsed_title]
}

/// What the path of a track says, given what the pattern found in the
/// part before its first blank.
pub open spec fn track_info_given(
    path: Seq<char>,
    groups: Option<(Option<Seq<char>>, Option<Seq<char>>)>,
    names: Seq<Seq<char>>,
) -> TrackInfoView {
    TrackInfoView {
        title: match title_in(path, names) {
            Some(t) => t,
            None => Seq::empty(),
        },
        disc_number: numbers_in(path, groups).0,
        track_number: numbers_in(path, groups).1,
    }
}

/// The part of a path before its first blank, or all of it.
pub open spec fn front_of(path: Seq<char>) -> Seq<char> {
    match split_first(path, seq![' ']) {
        Some((head, _)) => head,
        None => path,
    }
}

/// What the path of a track says about it.
pub open spec fn track_info_of(path: Seq<char>, album: AlbumView, info: AlbumInfoView) -> TrackInfoView {
    track_info_given(path, number_match(front_of(path)), names_around(album, info))
}

/// Drops `pat` from the front of `s` as often as it stands there.
pub fn strip_front(s: &Vec<char>, pat: &Vec<char>) -> (r: Vec<char>)
    ensures
        r@ == stripped_front(s@, pat@),
{
    let mut i: usize = 0;
    while pat.len() > 0 && has_at(s, pat, i)
        invariant
            i <= s.len(),
            front_end(s@, pat@, 0) == front_end(s@, pat@, i as int),
        decreases s.len() - i,
    {
        i += pat.len();
    }
    slice(s, i, s.len())
}

/// Removes every `<name> - ` from `s`, for the names in order.
pub fn remove_names(s: Vec<char>, names: &Vec<String>) -> (r: Vec<char>)
    ensures
        r@ == without_names(s@, names.deep_view()),
{
    let ghost all = names.deep_view();
    let ghost start = s@;
    let mut out = s;
    let mut i: usize = 0;
    assert(all.take(0) =~= Seq::<Seq<char>>::empty());
    while i < names.len()
        invariant
            i <= names.len(),
            all == names.deep_view(),
            out@ == without_names(start, all.take(i as int)),
        decreases names.len() - i,
    {
        let mut pat = chars_of(names[i].as_str());
        append(&mut pat, &three(' ', '-', ' '));
        proof {
            assert(all.take(i + 1).drop_last() =~= all.take(i as int));
            assert(all.take(i + 1).last() == names[i as int]@);
        }
        out = replace_all(&out, &pat, &Vec::new());
        i += 1;
    }
    assert(all.take(all.len() as int) =~= all);
    out
}

/// The number that a group holds.
pub fn number_in(g: &Option<String>) -> (r: Option<u16>)
    ensures
        r == group_number(text_of(*g)),
{
    match g {
        Some(t) => parse_u16(&chars_of(t.as_str())),
        None => None,
    }
}

/// What the path of a track says, given what the pattern found in the part
/// before its first blank and the names that are removed from the title.
pub fn track_info_from(
    rel_track_path: &str,
    groups: &Option<(Option<String>, Option<String>)>,
    names: &Vec<String>,
) -> (r: TrackInfo)
    ensures
        r@ == track_info_given(rel_track_path@, groups_of(*groups), names.deep_view()),
{
    let path = chars_of(rel_track_path);
    let mut res = TrackInfo { title: String::new(), disc_number: None, track_number: None };
    match split_once(&path, &single(' ')) {
        None => {},
        Some((_, tail)) => {
            match groups {
                None => {},
                Some((disc, track)) => {
                    res.disc_number = number_in(disc);
                    res.track_number = number_in(track);
                },
            }
            match rsplit_once(&tail, &single('.')) {
                None => {},
                Some((name, _)) => {
                    let mut lead = single('-');
                    lead.push(' ');
                    assert(lead@ =~= seq!['-', ' ']);
                    let bare = strip_front(&name, &lead);
                    let cleaned = trim(&remove_names(bare, names));
                    res.title = string_of(&cleaned);
                },
            }
        },
    }
    res
}

/// What the path of a track says about it: the numbers of disc and track
/// that stand before its first blank, and its title.
pub fn parse_track_info(rel_track_path: &str, album: &Album, album_info: &AlbumInfo) -> (r:
    TrackInfo)
    ensures
        r@ == track_info_of(rel_track_path@, album@, album_info@),
{
    let path = chars_of(rel_track_path);
    let groups = match split_once(&path, &single(' ')) {
        Some((head, _)) => number_groups(string_of(&head).as_str()),
        None => number_groups(rel_track_path),
    };
    let mut names: Vec<String> = Vec::new();
    names.push(album_info.artist.clone());
    names.push(album.artist.clone());
    names.push(album_info.title.clone());
    names.push(album.parsed_artist.clone());
    names.push(album.parsed_title.clone());
    assert(names.deep_view() =~= names_around(album@, album_info@));
    track_info_from(rel_track_path, &groups, &names)
}

/// `t` holds no text: it is missing or empty.
pub open spec fn blank(t: Option<Seq<char>>) -> bool {
    match t {
        Some(s) => s.len() == 0,
        None => true,
    }
}

/// `old`, or `new` where `old` is missing.
pub open spec fn or_text(old: Option<Seq<char>>, new: Seq<char>) -> Option<Seq<char>> {
    match old {
        Some(s) => Some(s),
        None => Some(new),
    }
}

/// `old`, or `new` where `old` is missing.
pub open spec fn or_number(old: Option<u16>, new: Option<u16>) -> Option<u16> {
    match old {
        Some(n) => Some(n),
        None => new,
    }
}

/// The tags of a track once what is missing is filled in: album title,
/// album artist (an empty one counts as missing), artist and title, and the
/// numbers of disc and track where the name of the file gives them.
pub open spec fn filled(tags: TrackTagsView, info: AlbumInfoView, track: TrackInfoView) -> TrackTagsView {
    TrackTagsView {
        album_title: or_text(tags.album_title, info.title),
        album_artist: if blank(tags.album_artist) {
            Some(info.artist)
        } else {
            tags.album_artist
        },
        artist: or_text(tags.artist, info.artist),
        title: or_text(tags.title, track.title),
        year: tags.year,
        disc_number: or_number(tags.disc_number, track.disc_number),
        track_number: or_number(tags.track_number, track.track_number),
    }
}

/// The names that are removed from a title that is written anew.
pub open spec fn names_of_info(album: AlbumView, info: AlbumInfoView) -> Seq<Seq<char>> {
    seq![info.artist, album.artist, info.title]
}

/// The tags of a track once they are set from what is known about its
/// album: the album title always, the album artist where it is missing or
/// empty, the year where it is known, the numbers of disc and track where
/// they are missing and the name of the file gives them, and the title
/// where the name of the file gives one.
pub open spec fn set_from(
    tags: TrackTagsView,
    info: AlbumInfoView,
    path: Seq<char>,
    groups: Option<(Option<Seq<char>>, Option<Seq<char>>)>,
    names: Seq<Seq<char>>,
) -> TrackTagsView {
    TrackTagsView {
        album_title: Some(info.title),
        album_artist: if blank(tags.album_artist) {
            Some(info.artist)
        } else {
            tags.album_artist
        },
        artist: tags.artist,
        title: match title_in(path, names) {
            Some(t) => Some(t),
            None => tags.title,
        },
        year: match info.year {
            Some(y) => Some(y),
            None => tags.year,
        },
        disc_number: or_number(tags.disc_number, numbers_in(path, groups).0),
        track_number: or_number(tags.track_number, numbers_in(path, groups).1),
    }
}

/// Tells whether the text is missing or empty.
pub fn is_blank(t: &Option<String>) -> (r: bool)
    ensures
        r == blank(text_of(*t)),
{
    match t {
        Some(s) => chars_of(s.as_str()).len() == 0,
        None => true,
    }
}

/// Fills in what the tags `tags` of a track lack, from what is known about
/// its album and from what the name of its file says.
pub fn fill_missing_tags(album_info: &AlbumInfo, track_info: TrackInfo, tags: TrackTags) -> (r:
    TrackTags)
    ensures
        r@ == filled(tags@, album_info@, track_info@),
{
    let mut tags = tags;
    if tags.album_title.is_none() {
        tags.album_title = Some(album_info.title.clone());
    }
    if is_blank(&tags.album_artist) {
        tags.album_artist = Some(album_info.artist.clone());
    }
    if tags.artist.is_none() {
        tags.artist = Some(album_info.artist.clone());
    }
    if tags.title.is_none() {
        tags.title = Some(track_info.title);
    }
    if tags.disc_number.is_none() {
        tags.disc_number = track_info.disc_number;
    }
    if tags.track_number.is_none() {
        tags.track_number = track_info.track_number;
    }
    tags
}

/// Fills in what the tags `tags` of the track `track` lack, from what is
/// known about its album and from the name of its file.
pub fn set_missing_tags(track: &str, album: &Album, album_info: &AlbumInfo, tags: TrackTags) -> (r:
    TrackTags)
    ensures
        r@ == filled(tags@, album_info@, track_info_of(track@, album@, album_info@)),
{
    let info = parse_track_info(track, album, album_info);
    fill_missing_tags(album_info, info, tags)
}

/// Sets the tags `tags` of the track `track` from what is known about its
/// album, given what the pattern found in the part of the name before its
/// first blank.
pub fn tags_from(
    track: &str,
    groups: &Option<(Option<String>, Option<String>)>,
    album: &Album,
    album_info: &AlbumInfo,
    tags: TrackTags,
) -> (r: TrackTags)
    ensures
        r@ == set_from(
            tags@,
            album_info@,
            track@,
            groups_of(*groups),
            names_of_info(album@, album_info@),
        ),
{
    let mut names: Vec<String> = Vec::new();
    names.push(album_info.artist.clone());
    names.push(album.artist.clone());
    names.push(album_info.title.clone());
    assert(names.deep_view() =~= names_of_info(album@, album_info@));
    let info = track_info_from(track, groups, &names);
    let path = chars_of(track);
    let has_title = match split_once(&path, &single(' ')) {
        None => false,
        Some((_, tail)) => rsplit_once(&tail, &single('.')).is_some(),
    };
    let mut tags = tags;
    tags.album_title = Some(album_info.title.clone());
    if is_blank(&tags.album_artist) {
        tags.album_artist = Some(album_info.artist.clone());
    }
    match album_info.year {
        Some(y) => {
            tags.year = Some(y);
        },
        None => {},
    }
    if tags.disc_number.is_none() {
        tags.disc_number = info.disc_number;
    }
    if tags.track_number.is_none() {
        tags.track_number = info.track_number;
    }
    if has_title {
        tags.title = Some(info.title);
    }
    tags
}

/// Sets the tags `tags` of the track `track` from what is known about its
/// album and from the name of its file.
pub fn set_tags(track: &str, album: &Album, album_info: &AlbumInfo, tags: TrackTags) -> (r:
    TrackTags)
    ensures
        r@ == set_from(
            tags@,
            album_info@,
            track@,
            number_match(front_of(track@)),
            names_of_info(album@, album_info@),
        ),
{
    let path = chars_of(track);
    let groups = match split_once(&path, &single(' ')) {
        Some((head, _)) => number_groups(string_of(&head).as_str()),
        None => number_groups(track),
    };
    tags_from(track, &groups, album, album_info, tags)
}

/// The kind of tag that a file gets which carries none.
#[derive(Clone, Copy, Debug, PartialEq, Eq, Structural)]
pub enum TagKind {
    Id3v2,
    Flac,
}

/// Why a file gets no new tag.
#[derive(Clone, Copy, Debug, PartialEq, Eq, Structural)]
pub enum TagError {
    /// No kind of tag is known for the format.
    NoTagFor(FileType),
    /// The tracks of the album share no format.
    UnknownFileType,
}

/// The kind of tag for the files of a format: ID3v2 for MP3, FLAC for FLAC.
pub open spec fn tag_kind_of(ft: Option<FileType>) -> Result<TagKind, TagError> {
    match ft {
        Some(FileType::MP3) => Ok(TagKind::Id3v2),
        Some(FileType::Flac) => Ok(TagKind::Flac),
        Some(other) => Err(TagError::NoTagFor(other)),
        None => Err(TagError::UnknownFileType),
    }
}

/// The kind of tag that a track of `album` gets where its file carries
/// none.
pub fn get_tag(album: &Album) -> (r: Result<TagKind, TagError>)
    ensures
        r == tag_kind_of(type_of(album@.tracks)),
{
    match album.file_type() {
        Some(FileType::MP3) => Ok(TagKind::Id3v2),
        Some(FileType::Flac) => Ok(TagKind::Flac),
        Some(other) => Err(TagError::NoTagFor(other)),
        None => Err(TagError::UnknownFileType),
    }
}

} // verus!
