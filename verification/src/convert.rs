//! Conversion of an album into another format: which directory the copy
//! goes to, with which arguments the encoder runs for each track, and what
//! the copy is once the encoder has done its work.

use crate::album::{
    all_of_type, dir_with_ft, lemma_one_type_per_track, track_of_type, type_of, Album, AlbumView,
};
use crate::file_type::{lossless, name_chars, FileType};
use crate::location::{
    arriving_name, cover_transfers, path_file_name, path_join, FileOp, FileOpView,
};
use crate::paths::{
    file_name_of, joined_path, lemma_file_name_keeps_suffix, lemma_joined_keeps_suffix,
};
use crate::text::{
    append, chars_of, lemma_replaced_end, replace_all, replaced, starts_apart, string_of,
};
use vstd::prelude::*;

verus! {

/// Why an album is not converted.
#[derive(Clone, Copy, Debug, PartialEq, Eq, Structural)]
pub enum ConvertError {
    /// The tracks of the source share no format.
    UnknownSourceType,
    /// The source is lossy and the wanted format is lossless.
    LossyToLossless,
    /// The encoder is not driven for the wanted format.
    UnsupportedTarget,
    /// The encoder failed on a track, or did not run for each track.
    EncoderFailed,
}

/// A planned conversion: the operations that make the copy, and the album
/// that the copy is once they are done.
#[derive(Debug)]
pub struct Conversion {
    pub album: Album,
    pub ops: Vec<FileOp>,
}

/// A planned conversion as plain values.
pub struct ConversionView {
    pub album: AlbumView,
    pub ops: Seq<FileOpView>,
}

impl View for Conversion {
    type V = ConversionView;

    open spec fn view(&self) -> ConversionView {
        ConversionView { album: self.album@, ops: self.ops.deep_view() }
    }
}

/// The encoder is driven for MP3 and for FLAC.
pub open spec fn encodable(dest: FileType) -> bool {
    dest == FileType::MP3 || dest == FileType::Flac
}

/// The arguments that follow the input for an output in the format `dest`:
/// for MP3 a fixed bit rate and the tags of the input, for any other format
/// the output alone.
pub open spec fn output_args(dest: FileType, output: Seq<char>) -> Seq<Seq<char>> {
    if dest == FileType::MP3 {
        seq![
            "-ab"@,
            "320k"@,
            "-map_metadata"@,
            "0"@,
            "-id3v2_version"@,
            "3"@,
            "-write_id3v1"@,
            "1"@,
            output,
        ]
    } else {
        seq![output]
    }
}

/// The arguments of one run of the encoder.
pub open spec fn encoder_args(dest: FileType, input: Seq<char>, output: Seq<char>) -> Seq<
    Seq<char>,
> {
    seq!["-i"@, input] + output_args(dest, output)
}

/// The name of a track once it is converted: every `.<from>` in it turned
/// into `.<to>`.
pub open spec fn converted_name(track: Seq<char>, from: FileType, to: FileType) -> Seq<char> {
    replaced(track, seq!['.'] + name_chars(from), seq!['.'] + name_chars(to))
}

/// One run of the encoder for each track.
pub open spec fn encodings(src: AlbumView, target: Seq<char>, from: FileType, to: FileType) -> Seq<
    FileOpView,
> {
    Seq::new(
        src.tracks.len(),
        |i: int|
            FileOpView::Encode {
                args: encoder_args(
                    to,
                    joined_path(src.dir_path, src.tracks[i]),
                    joined_path(target, converted_name(src.tracks[i], from, to)),
                ),
            },
    )
}

/// The tracks of the copy.
pub open spec fn converted_tracks(src: AlbumView, target: Seq<char>, from: FileType, to: FileType) -> Seq<
    Seq<char>,
> {
    Seq::new(
        src.tracks.len(),
        |i: int| file_name_of(joined_path(target, converted_name(src.tracks[i], from, to))),
    )
}

/// The conversion of `src`, whose format is `from`, into the format `to`
/// below `root`: the directory is made, the cover files are copied, each
/// track is encoded; the copy keeps the names of the source and lies in the
/// directory that carries the new format.
pub open spec fn conversion_into(src: AlbumView, root: Seq<char>, from: FileType, to: FileType) -> ConversionView {
    let target = dir_with_ft(src, root, Some(to));
    ConversionView {
        album: AlbumView {
            title: src.title,
            artist: src.artist,
            tracks: converted_tracks(src, target, from, to),
            dir_path: target,
            cover_files: src.cover_files,
            parsed_title: src.parsed_title,
            parsed_artist: src.parsed_artist,
        },
        ops: seq![FileOpView::MakeDir { path: target }] + cover_transfers(
            false,
            src.cover_files,
            target,
        ) + encodings(src, target, from, to),
    }
}

/// What converting `src` into `dest` below `root` comes to. A source
/// without a format is refused; so is a lossy source for a lossless format,
/// before anything else is looked at; so is a format that the encoder is
/// not driven for.
pub open spec fn conversion_of(src: AlbumView, root: Seq<char>, dest: FileType) -> Result<
    ConversionView,
    ConvertError,
> {
    match type_of(src.tracks) {
        None => Err(ConvertError::UnknownSourceType),
        Some(from) => if lossless(dest) && !lossless(from) {
            Err(ConvertError::LossyToLossless)
        } else if !encodable(dest) {
            Err(ConvertError::UnsupportedTarget)
        } else {
            Ok(conversion_into(src, root, from, dest))
        },
    }
}

/// The tracks of the copy that a conversion plans have the wanted format,
/// and so has the copy: the sources will hold the release in that format
/// once the conversion is done.
pub proof fn lemma_conversion_has_wanted_format(
    src: AlbumView,
    root: Seq<char>,
    from: FileType,
    to: FileType,
)
    requires
        all_of_type(src.tracks, from),
    ensures
        all_of_type(conversion_into(src, root, from, to).album.tracks, to),
        type_of(conversion_into(src, root, from, to).album.tracks) == Some(to),
{
    let target = dir_with_ft(src, root, Some(to));
    let tracks = converted_tracks(src, target, from, to);
    let old = seq!['.'] + name_chars(from);
    let new = seq!['.'] + name_chars(to);
    assert(starts_apart(old)) by {
        assert(old[0] == '.');
        assert forall|i: int| 0 < i < old.len() implies #[trigger] old[i] != old[0] by {
            assert(old[i] == name_chars(from)[i - 1]);
        }
    }
    assert forall|i: int| 0 <= i < new.len() implies #[trigger] new[i] != '/' by {
        if i > 0 {
            assert(new[i] == name_chars(to)[i - 1]);
        }
    }
    assert forall|i: int| 0 <= i < tracks.len() implies track_of_type(#[trigger] tracks[i], to) by {
        let t = src.tracks[i];
        assert(track_of_type(t, from));
        lemma_replaced_end(t, old, new, 0);
        lemma_joined_keeps_suffix(target, converted_name(t, from, to), new);
        lemma_file_name_keeps_suffix(joined_path(target, converted_name(t, from, to)), new);
    }
    assert(all_of_type(tracks, to));
    assert forall|other: FileType| other != to implies !all_of_type(tracks, other) by {
        if all_of_type(tracks, other) {
            lemma_one_type_per_track(tracks[0], to, other);
        }
    }
}

/// No lossy album is ever converted into a lossless format: the call
/// fails, and with it no operation is planned, so that the encoder never
/// runs.
pub proof fn lemma_lossy_is_never_made_lossless(src: AlbumView, root: Seq<char>, dest: FileType)
    requires
        lossless(dest),
        type_of(src.tracks) matches Some(from) && !lossless(from),
    ensures
        conversion_of(src, root, dest) == Err::<ConversionView, ConvertError>(
            ConvertError::LossyToLossless,
        ),
{
}

/// The arguments of one run of the encoder.
pub fn args_for(dest: FileType, input: String, output: String) -> (r: Vec<String>)
    ensures
        r.deep_view() == encoder_args(dest, input@, output@),
{
    let mut args: Vec<String> = Vec::new();
    args.push("-i".to_owned());
    args.push(input);
    match dest {
        FileType::MP3 => {
            args.push("-ab".to_owned());
            args.push("320k".to_owned());
            args.push("-map_metadata".to_owned());
            args.push("0".to_owned());
            args.push("-id3v2_version".to_owned());
            args.push("3".to_owned());
            args.push("-write_id3v1".to_owned());
            args.push("1".to_owned());
            args.push(output);
        },
        _ => {
            args.push(output);
        },
    }
    assert(args.deep_view() =~= encoder_args(dest, input@, output@));
    args
}

/// The name of `track` once it is converted from `from` to `to`.
pub fn rename_track(track: &str, from: FileType, to: FileType) -> (r: String)
    ensures
        r@ == converted_name(track@, from, to),
{
    let mut old: Vec<char> = Vec::new();
    old.push('.');
    append(&mut old, &chars_of(from.name()));
    assert(old@ =~= seq!['.'] + name_chars(from));
    let mut new: Vec<char> = Vec::new();
    new.push('.');
    append(&mut new, &chars_of(to.name()));
    assert(new@ =~= seq!['.'] + name_chars(to));
    string_of(&replace_all(&chars_of(track), &old, &new))
}

/// Plans the conversion of `src_album`, which lies below the source root
/// `src`, into the format `dest_ft`.
pub fn convert_src_album(src: &str, src_album: &Album, dest_ft: &FileType) -> (r: Result<
    Conversion,
    ConvertError,
>)
    ensures
        match r {
            Ok(c) => conversion_of(src_album@, src@, *dest_ft) == Ok::<
                ConversionView,
                ConvertError,
            >(c@),
            Err(e) => conversion_of(src_album@, src@, *dest_ft) == Err::<
                ConversionView,
                ConvertError,
            >(e),
        },
{
    let from = match src_album.file_type() {
        None => {
            return Err(ConvertError::UnknownSourceType);
        },
        Some(ft) => ft,
    };
    let to = *dest_ft;
    if to.is_lossless() && !from.is_lossless() {
        return Err(ConvertError::LossyToLossless);
    }
    match to {
        FileType::MP3 => {},
        FileType::Flac => {},
        _ => {
            return Err(ConvertError::UnsupportedTarget);
        },
    }
    let target = src_album.album_dir_with_ft(src.to_owned(), &Some(to));
    let ghost covers = cover_transfers(false, src_album@.cover_files, target@);
    let ghost runs = encodings(src_album@, target@, from, to);
    let ghost names = converted_tracks(src_album@, target@, from, to);
    let mut ops: Vec<FileOp> = Vec::new();
    ops.push(FileOp::MakeDir { path: target.clone() });
    let ghost first = seq![FileOpView::MakeDir { path: target@ }];
    assert(ops.deep_view() =~= first);
    let mut j: usize = 0;
    while j < src_album.cover_files.len()
        invariant
            j <= src_album.cover_files.len(),
            covers == cover_transfers(false, src_album@.cover_files, target@),
            ops.deep_view() == first + covers.take(j as int),
        decreases src_album.cover_files.len() - j,
    {
        let ghost before = ops.deep_view();
        let cover = &src_album.cover_files[j];
        let name = arriving_name(false, cover.as_str());
        let to_path = path_join(target.as_str(), name.as_str());
        ops.push(FileOp::CopyFile { from: cover.clone(), to: to_path });
        assert(ops.deep_view() =~= before.push(covers[j as int]));
        assert(covers.take(j + 1) =~= covers.take(j as int).push(covers[j as int]));
        j += 1;
    }
    assert(covers.take(covers.len() as int) =~= covers);
    let mut tracks: Vec<String> = Vec::new();
    let mut k: usize = 0;
    assert(tracks.deep_view() =~= names.take(0));
    while k < src_album.tracks.len()
        invariant
            k <= src_album.tracks.len(),
            runs == encodings(src_album@, target@, from, to),
            names == converted_tracks(src_album@, target@, from, to),
            ops.deep_view() == first + covers + runs.take(k as int),
            tracks.deep_view() == names.take(k as int),
        decreases src_album.tracks.len() - k,
    {
        let ghost before = ops.deep_view();
        let ghost had = tracks.deep_view();
        let track = &src_album.tracks[k];
        let input = path_join(src_album.dir_path.as_str(), track.as_str());
        let renamed = rename_track(track.as_str(), from, to);
        let output = path_join(target.as_str(), renamed.as_str());
        tracks.push(path_file_name(output.as_str()));
        ops.push(FileOp::Encode { args: args_for(to, input, output) });
        assert(ops.deep_view() =~= before.push(runs[k as int]));
        assert(runs.take(k + 1) =~= runs.take(k as int).push(runs[k as int]));
        assert(tracks.deep_view() =~= had.push(names[k as int]));
        assert(names.take(k + 1) =~= names.take(k as int).push(names[k as int]));
        k += 1;
    }
    assert(runs.take(runs.len() as int) =~= runs);
    assert(names.take(names.len() as int) =~= names);
    let album = Album::new(
        src_album.title.clone(),
        src_album.artist.clone(),
        tracks,
        target,
        crate::text::copy_names(&src_album.cover_files),
        src_album.parsed_title.clone(),
        src_album.parsed_artist.clone(),
    );
    Ok(Conversion { album: album, ops: ops })
}

/// Every run of the encoder ended well, and there was one for each track.
pub open spec fn all_encoded(tracks: Seq<Seq<char>>, statuses: Seq<bool>) -> bool {
    statuses.len() == tracks.len() && forall|i: int| 0 <= i < statuses.len() ==> #[trigger] statuses[i]
}

impl Conversion {
    /// The album that a conversion gave, once the encoder has run.
    /// `statuses` tells for each run, in order, whether it ended well. The
    /// conversion counts only if there was a run for each track and every
    /// run ended well.
    pub fn outcome(self, statuses: &Vec<bool>) -> (r: Result<Album, ConvertError>)
        ensures
            match r {
                Ok(a) => all_encoded(self@.album.tracks, statuses@) && a@ == self@.album,
                Err(e) => !all_encoded(self@.album.tracks, statuses@) && e
                    == ConvertError::EncoderFailed,
            },
    {
        if statuses.len() != self.album.tracks.len() {
            return Err(ConvertError::EncoderFailed);
        }
        let mut i: usize = 0;
        while i < statuses.len()
            invariant
                i <= statuses.len(),
                forall|k: int| 0 <= k < i ==> #[trigger] statuses@[k],
            decreases statuses.len() - i,
        {
            if !statuses[i] {
                return Err(ConvertError::EncoderFailed);
            }
            i += 1;
        }
        Ok(self.album)
    }
}

} // verus!
