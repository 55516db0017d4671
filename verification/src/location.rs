//! Places where albums live. A location does not touch files itself: it
//! says which file operations bring an album to it, remove one from it, or
//! complete one at it, and whoever runs the plan performs them.

use crate::album::{dir_with_ft, Album, AlbumView};
use crate::catalog::{group_files_into_albums, grouped};
use crate::order::holds;
use crate::paths::{
    file_name, file_name_of, join, joined_path, lemma_file_name_of_joined,
    lemma_file_name_slash_free, normalize, slash_free, slashed,
};
use crate::text::{append, chars_of, replace_all, replaced, string_of};
use vstd::prelude::*;

verus! {

/// One file operation of a plan.
#[derive(Debug, PartialEq, Eq)]
pub enum FileOp {
    /// Create the directory, and those above it, unless it is there.
    MakeDir { path: String },
    /// Copy one file.
    CopyFile { from: String, to: String },
    /// Remove the directory with all it holds.
    RemoveDir { path: String },
    /// Run the encoder with these arguments.
    Encode { args: Vec<String> },
    /// Create the directory on the device, unless it is there.
    DeviceMakeDir { path: String },
    /// Send one file to the device.
    DevicePush { local: String, remote: String },
    /// Remove the directory on the device with all it holds.
    DeviceRemoveDir { path: String },
}

/// A file operation as plain values.
pub enum FileOpView {
    MakeDir { path: Seq<char> },
    CopyFile { from: Seq<char>, to: Seq<char> },
    RemoveDir { path: Seq<char> },
    Encode { args: Seq<Seq<char>> },
    DeviceMakeDir { path: Seq<char> },
    DevicePush { local: Seq<char>, remote: Seq<char> },
    DeviceRemoveDir { path: Seq<char> },
}

impl View for FileOp {
    type V = FileOpView;

    open spec fn view(&self) -> FileOpView {
        match self {
            FileOp::MakeDir { path } => FileOpView::MakeDir { path: path@ },
            FileOp::CopyFile { from, to } => FileOpView::CopyFile { from: from@, to: to@ },
            FileOp::RemoveDir { path } => FileOpView::RemoveDir { path: path@ },
            FileOp::Encode { args } => FileOpView::Encode { args: args.deep_view() },
            FileOp::DeviceMakeDir { path } => FileOpView::DeviceMakeDir { path: path@ },
            FileOp::DevicePush { local, remote } => FileOpView::DevicePush {
                local: local@,
                remote: remote@,
            },
            FileOp::DeviceRemoveDir { path } => FileOpView::DeviceRemoveDir { path: path@ },
        }
    }
}

impl DeepView for FileOp {
    type V = FileOpView;

    open spec fn deep_view(&self) -> FileOpView {
        self@
    }
}

/// The operation that creates `path`, on the device or here.
pub open spec fn make_dir(device: bool, path: Seq<char>) -> FileOpView {
    if device {
        FileOpView::DeviceMakeDir { path }
    } else {
        FileOpView::MakeDir { path }
    }
}

/// The operation that brings the file `from` to `to`, on the device or here.
pub open spec fn transfer(device: bool, from: Seq<char>, to: Seq<char>) -> FileOpView {
    if device {
        FileOpView::DevicePush { local: from, remote: to }
    } else {
        FileOpView::CopyFile { from, to }
    }
}

/// The operation that removes `path`, on the device or here.
pub open spec fn remove_dir(device: bool, path: Seq<char>) -> FileOpView {
    if device {
        FileOpView::DeviceRemoveDir { path }
    } else {
        FileOpView::RemoveDir { path }
    }
}

/// The name under which a cover file arrives: its file name, on the device
/// with `.jpeg` turned into `.jpg`.
pub open spec fn cover_name(device: bool, cover: Seq<char>) -> Seq<char> {
    if device {
        replaced(file_name_of(cover), seq!['.', 'j', 'p', 'e', 'g'], seq!['.', 'j', 'p', 'g'])
    } else {
        file_name_of(cover)
    }
}

/// The names under which the cover files arrive.
pub open spec fn cover_names(device: bool, covers: Seq<Seq<char>>) -> Seq<Seq<char>> {
    Seq::new(covers.len(), |i: int| cover_name(device, covers[i]))
}

/// One transfer for each cover file, into `target`.
pub open spec fn cover_transfers(device: bool, covers: Seq<Seq<char>>, target: Seq<char>) -> Seq<
    FileOpView,
> {
    Seq::new(
        covers.len(),
        |i: int| transfer(device, covers[i], joined_path(target, cover_name(device, covers[i]))),
    )
}

/// One transfer for each track, from `from_dir` into `target`.
pub open spec fn track_transfers(
    device: bool,
    tracks: Seq<Seq<char>>,
    from_dir: Seq<char>,
    target: Seq<char>,
) -> Seq<FileOpView> {
    Seq::new(
        tracks.len(),
        |i: int| transfer(device, joined_path(from_dir, tracks[i]), joined_path(target, tracks[i])),
    )
}

/// The plan that brings all of `src` into `target`: the directories first,
/// then every cover file, then every track.
pub open spec fn full_copy_ops(
    device: bool,
    dirs: Seq<Seq<char>>,
    target: Seq<char>,
    src: AlbumView,
) -> Seq<FileOpView> {
    Seq::new(dirs.len(), |i: int| make_dir(device, dirs[i])) + cover_transfers(
        device,
        src.cover_files,
        target,
    ) + track_transfers(device, src.tracks, src.dir_path, target)
}

/// The transfers for the first `n` tracks of `src` that `dst` lacks. A
/// track that would be copied onto itself is passed over.
pub open spec fn missing_tracks(device: bool, src: AlbumView, dst: AlbumView, n: int) -> Seq<
    FileOpView,
>
    decreases n,
{
    if n <= 0 || n > src.tracks.len() {
        Seq::empty()
    } else {
        let before = missing_tracks(device, src, dst, n - 1);
        let t = src.tracks[n - 1];
        let from = joined_path(src.dir_path, t);
        let to = joined_path(dst.dir_path, t);
        if dst.tracks.contains(t) || from == to {
            before
        } else {
            before.push(transfer(device, from, to))
        }
    }
}

/// The transfers for the first `n` cover files of `src` whose name no cover
/// file of `dst` has. A file that would be copied onto itself is passed over.
pub open spec fn missing_covers(device: bool, src: AlbumView, dst: AlbumView, n: int) -> Seq<
    FileOpView,
>
    decreases n,
{
    if n <= 0 || n > src.cover_files.len() {
        Seq::empty()
    } else {
        let before = missing_covers(device, src, dst, n - 1);
        let c = src.cover_files[n - 1];
        let name = cover_name(device, c);
        let to = joined_path(dst.dir_path, name);
        if cover_names(false, dst.cover_files).contains(name) || c == to {
            before
        } else {
            before.push(transfer(device, c, to))
        }
    }
}

/// The plan that completes `dst` from `src`: the tracks that `dst` lacks,
/// then the cover files that it lacks.
pub open spec fn backfill_ops(device: bool, src: AlbumView, dst: AlbumView) -> Seq<FileOpView> {
    missing_tracks(device, src, dst, src.tracks.len() as int) + missing_covers(
        device,
        src,
        dst,
        src.cover_files.len() as int,
    )
}

/// `dst` lacks nothing of `src`: it holds every track of `src`, and a cover
/// file under each name under which one of `src` would arrive.
pub open spec fn complete(device: bool, src: AlbumView, dst: AlbumView) -> bool {
    &&& forall|i: int| 0 <= i < src.tracks.len() ==> dst.tracks.contains(#[trigger] src.tracks[i])
    &&& forall|i: int|
        0 <= i < src.cover_files.len() ==> cover_names(false, dst.cover_files).contains(
            cover_name(device, #[trigger] src.cover_files[i]),
        )
}

/// Where `dst` holds the first `n` tracks of `src`, none of them is copied.
pub proof fn lemma_no_track_missing(device: bool, src: AlbumView, dst: AlbumView, n: int)
    requires
        forall|i: int| 0 <= i < n && i < src.tracks.len() ==> dst.tracks.contains(#[trigger] src.tracks[i]),
    ensures
        missing_tracks(device, src, dst, n) == Seq::<FileOpView>::empty(),
    decreases n,
{
    if 0 < n <= src.tracks.len() {
        lemma_no_track_missing(device, src, dst, n - 1);
        assert(dst.tracks.contains(src.tracks[n - 1]));
    }
}

/// Where `dst` holds the names of the first `n` cover files of `src`, none
/// of them is copied.
pub proof fn lemma_no_cover_missing(device: bool, src: AlbumView, dst: AlbumView, n: int)
    requires
        forall|i: int|
            0 <= i < n && i < src.cover_files.len() ==> cover_names(
                false,
                dst.cover_files,
            ).contains(cover_name(device, #[trigger] src.cover_files[i])),
    ensures
        missing_covers(device, src, dst, n) == Seq::<FileOpView>::empty(),
    decreases n,
{
    if 0 < n <= src.cover_files.len() {
        lemma_no_cover_missing(device, src, dst, n - 1);
        assert(cover_names(false, dst.cover_files).contains(
            cover_name(device, src.cover_files[n - 1]),
        ));
    }
}

/// The cover files as a full copy writes them into `target`.
pub open spec fn written_covers(device: bool, target: Seq<char>, covers: Seq<Seq<char>>) -> Seq<
    Seq<char>,
> {
    Seq::new(covers.len(), |i: int| joined_path(target, cover_name(device, covers[i])))
}

/// The name under which a cover file arrives holds no slash.
pub proof fn lemma_cover_name_slash_free(device: bool, cover: Seq<char>)
    ensures
        slash_free(cover_name(device, cover)),
{
    lemma_file_name_slash_free(cover);
    if device {
        crate::text::lemma_replaced_without(
            file_name_of(cover),
            seq!['.', 'j', 'p', 'e', 'g'],
            seq!['.', 'j', 'p', 'g'],
            '/',
            0,
        );
    }
}

/// An album that holds the tracks of `src` and the cover files that a full
/// copy of `src` writes lacks nothing of `src`.
pub proof fn lemma_full_copy_is_complete(
    device: bool,
    target: Seq<char>,
    src: AlbumView,
    dst: AlbumView,
)
    requires
        dst.tracks == src.tracks,
        dst.cover_files == written_covers(device, target, src.cover_files),
    ensures
        complete(device, src, dst),
        backfill_ops(device, src, dst) == Seq::<FileOpView>::empty(),
{
    assert forall|i: int| 0 <= i < src.tracks.len() implies dst.tracks.contains(
        #[trigger] src.tracks[i],
    ) by {
        assert(dst.tracks[i] == src.tracks[i]);
    }
    let names = cover_names(false, dst.cover_files);
    assert forall|i: int| 0 <= i < src.cover_files.len() implies names.contains(
        cover_name(device, #[trigger] src.cover_files[i]),
    ) by {
        let name = cover_name(device, src.cover_files[i]);
        lemma_cover_name_slash_free(device, src.cover_files[i]);
        lemma_file_name_of_joined(target, name);
        assert(names[i] == name);
    }
    lemma_complete_needs_nothing(device, src, dst);
}

/// An album that lacks nothing is completed by no operation.
pub proof fn lemma_complete_needs_nothing(device: bool, src: AlbumView, dst: AlbumView)
    requires
        complete(device, src, dst),
    ensures
        backfill_ops(device, src, dst) == Seq::<FileOpView>::empty(),
{
    lemma_no_track_missing(device, src, dst, src.tracks.len() as int);
    lemma_no_cover_missing(device, src, dst, src.cover_files.len() as int);
}

/// The transfers for the first `n` tracks where `dst` lacks the track at
/// index `k` of `src` and no other: none up to `k`, that one after.
pub proof fn lemma_one_track_missing(device: bool, src: AlbumView, dst: AlbumView, k: int, n: int)
    requires
        0 <= k < src.tracks.len(),
        0 <= n <= src.tracks.len(),
        !dst.tracks.contains(src.tracks[k]),
        forall|i: int|
            0 <= i < src.tracks.len() && i != k ==> dst.tracks.contains(#[trigger] src.tracks[i]),
        joined_path(src.dir_path, src.tracks[k]) != joined_path(dst.dir_path, src.tracks[k]),
    ensures
        missing_tracks(device, src, dst, n) == if n <= k {
            Seq::<FileOpView>::empty()
        } else {
            seq![
                transfer(
                    device,
                    joined_path(src.dir_path, src.tracks[k]),
                    joined_path(dst.dir_path, src.tracks[k]),
                ),
            ]
        },
    decreases n,
{
    if n > 0 {
        lemma_one_track_missing(device, src, dst, k, n - 1);
        if n - 1 != k {
            assert(dst.tracks.contains(src.tracks[n - 1]));
        } else {
            assert(Seq::<FileOpView>::empty().push(
                transfer(
                    device,
                    joined_path(src.dir_path, src.tracks[k]),
                    joined_path(dst.dir_path, src.tracks[k]),
                ),
            ) =~= seq![
                transfer(
                    device,
                    joined_path(src.dir_path, src.tracks[k]),
                    joined_path(dst.dir_path, src.tracks[k]),
                ),
            ]);
        }
    }
}

/// Where the album at the destination lacks one track of the source album
/// and nothing else, completing it copies exactly that track.
pub proof fn lemma_backfill_copies_the_missing_track(
    device: bool,
    src: AlbumView,
    dst: AlbumView,
    k: int,
)
    requires
        0 <= k < src.tracks.len(),
        !dst.tracks.contains(src.tracks[k]),
        forall|i: int|
            0 <= i < src.tracks.len() && i != k ==> dst.tracks.contains(#[trigger] src.tracks[i]),
        forall|i: int|
            0 <= i < src.cover_files.len() ==> cover_names(false, dst.cover_files).contains(
                cover_name(device, #[trigger] src.cover_files[i]),
            ),
        joined_path(src.dir_path, src.tracks[k]) != joined_path(dst.dir_path, src.tracks[k]),
    ensures
        backfill_ops(device, src, dst) == seq![
            transfer(
                device,
                joined_path(src.dir_path, src.tracks[k]),
                joined_path(dst.dir_path, src.tracks[k]),
            ),
        ],
{
    lemma_one_track_missing(device, src, dst, k, src.tracks.len() as int);
    lemma_no_cover_missing(device, src, dst, src.cover_files.len() as int);
    assert(backfill_ops(device, src, dst) =~= seq![
        transfer(
            device,
            joined_path(src.dir_path, src.tracks[k]),
            joined_path(dst.dir_path, src.tracks[k]),
        ),
    ]);
}

/// The path of `name` below `base`.
pub fn path_join(base: &str, name: &str) -> (r: String)
    ensures
        r@ == joined_path(base@, name@),
{
    let b = chars_of(base);
    let n = chars_of(name);
    string_of(&join(&b, &n))
}

/// The file name of `path`.
pub fn path_file_name(path: &str) -> (r: String)
    ensures
        r@ == file_name_of(path@),
{
    let p = chars_of(path);
    string_of(&file_name(&p))
}

/// The name under which the cover file arrives.
pub fn arriving_name(device: bool, cover: &str) -> (r: String)
    ensures
        r@ == cover_name(device, cover@),
{
    let name = file_name(&chars_of(cover));
    if device {
        let mut jpeg: Vec<char> = Vec::new();
        jpeg.push('.');
        jpeg.push('j');
        jpeg.push('p');
        jpeg.push('e');
        jpeg.push('g');
        assert(jpeg@ =~= seq!['.', 'j', 'p', 'e', 'g']);
        let mut jpg: Vec<char> = Vec::new();
        jpg.push('.');
        jpg.push('j');
        jpg.push('p');
        jpg.push('g');
        assert(jpg@ =~= seq!['.', 'j', 'p', 'g']);
        string_of(&replace_all(&name, &jpeg, &jpg))
    } else {
        string_of(&name)
    }
}

/// The operation that brings the file `from` to `to`.
pub fn transfer_op(device: bool, from: String, to: String) -> (r: FileOp)
    ensures
        r@ == transfer(device, from@, to@),
{
    if device {
        FileOp::DevicePush { local: from, remote: to }
    } else {
        FileOp::CopyFile { from: from, to: to }
    }
}

/// The plan that brings all of `src` into `target`, creating `dirs` first.
pub fn plan_full_copy(device: bool, dirs: &Vec<String>, target: &str, src: &Album) -> (r: Vec<
    FileOp,
>)
    ensures
        r.deep_view() == full_copy_ops(device, dirs.deep_view(), target@, src@),
{
    let ghost made = Seq::new(dirs.len() as nat, |i: int| make_dir(device, dirs.deep_view()[i]));
    let ghost covers = cover_transfers(device, src@.cover_files, target@);
    let ghost tracks = track_transfers(device, src@.tracks, src@.dir_path, target@);
    let mut out: Vec<FileOp> = Vec::new();
    let mut i: usize = 0;
    while i < dirs.len()
        invariant
            i <= dirs.len(),
            made == Seq::new(dirs.len() as nat, |i: int| make_dir(device, dirs.deep_view()[i])),
            out.deep_view() == made.take(i as int),
        decreases dirs.len() - i,
    {
        let ghost before = out.deep_view();
        if device {
            out.push(FileOp::DeviceMakeDir { path: dirs[i].clone() });
        } else {
            out.push(FileOp::MakeDir { path: dirs[i].clone() });
        }
        assert(out.deep_view() =~= before.push(make_dir(device, dirs[i as int]@)));
        assert(made.take(i + 1) =~= made.take(i as int).push(made[i as int]));
        i += 1;
    }
    assert(made.take(made.len() as int) =~= made);
    let mut j: usize = 0;
    while j < src.cover_files.len()
        invariant
            j <= src.cover_files.len(),
            covers == cover_transfers(device, src@.cover_files, target@),
            out.deep_view() == made + covers.take(j as int),
        decreases src.cover_files.len() - j,
    {
        let ghost before = out.deep_view();
        let name = arriving_name(device, src.cover_files[j].as_str());
        let to = path_join(target, name.as_str());
        out.push(transfer_op(device, src.cover_files[j].clone(), to));
        assert(out.deep_view() =~= before.push(covers[j as int]));
        assert(covers.take(j + 1) =~= covers.take(j as int).push(covers[j as int]));
        j += 1;
    }
    assert(covers.take(covers.len() as int) =~= covers);
    let mut k: usize = 0;
    while k < src.tracks.len()
        invariant
            k <= src.tracks.len(),
            tracks == track_transfers(device, src@.tracks, src@.dir_path, target@),
            out.deep_view() == made + covers + tracks.take(k as int),
        decreases src.tracks.len() - k,
    {
        let ghost before = out.deep_view();
        let from = path_join(src.dir_path.as_str(), src.tracks[k].as_str());
        let to = path_join(target, src.tracks[k].as_str());
        out.push(transfer_op(device, from, to));
        assert(out.deep_view() =~= before.push(tracks[k as int]));
        assert(tracks.take(k + 1) =~= tracks.take(k as int).push(tracks[k as int]));
        k += 1;
    }
    assert(tracks.take(tracks.len() as int) =~= tracks);
    out
}

/// The names of the cover files, as they stand in their directory.
pub fn names_of_covers(covers: &Vec<String>) -> (r: Vec<String>)
    ensures
        r.deep_view() == cover_names(false, covers.deep_view()),
{
    let ghost all = cover_names(false, covers.deep_view());
    let mut out: Vec<String> = Vec::new();
    let mut i: usize = 0;
    while i < covers.len()
        invariant
            i <= covers.len(),
            all == cover_names(false, covers.deep_view()),
            out.deep_view() == all.take(i as int),
        decreases covers.len() - i,
    {
        let ghost before = out.deep_view();
        out.push(arriving_name(false, covers[i].as_str()));
        assert(out.deep_view() =~= before.push(all[i as int]));
        assert(all.take(i + 1) =~= all.take(i as int).push(all[i as int]));
        i += 1;
    }
    assert(all.take(all.len() as int) =~= all);
    out
}

/// The plan that completes `dst` from `src`.
pub fn plan_backfill(device: bool, src: &Album, dst: &Album) -> (r: Vec<FileOp>)
    ensures
        r.deep_view() == backfill_ops(device, src@, dst@),
{
    let mut out: Vec<FileOp> = Vec::new();
    let mut i: usize = 0;
    assert(out.deep_view() =~= missing_tracks(device, src@, dst@, 0));
    while i < src.tracks.len()
        invariant
            i <= src.tracks.len(),
            out.deep_view() == missing_tracks(device, src@, dst@, i as int),
        decreases src.tracks.len() - i,
    {
        let ghost before = out.deep_view();
        let track = &src.tracks[i];
        let from = path_join(src.dir_path.as_str(), track.as_str());
        let to = path_join(dst.dir_path.as_str(), track.as_str());
        if !holds(&dst.tracks, track) && from != to {
            let ghost op = transfer(device, from@, to@);
            out.push(transfer_op(device, from, to));
            assert(out.deep_view() =~= before.push(op));
        }
        i += 1;
    }
    let ghost tracks = out.deep_view();
    let have = names_of_covers(&dst.cover_files);
    let mut j: usize = 0;
    assert(out.deep_view() =~= tracks + missing_covers(device, src@, dst@, 0));
    while j < src.cover_files.len()
        invariant
            j <= src.cover_files.len(),
            have.deep_view() == cover_names(false, dst@.cover_files),
            out.deep_view() == tracks + missing_covers(device, src@, dst@, j as int),
        decreases src.cover_files.len() - j,
    {
        let ghost before = out.deep_view();
        let cover = &src.cover_files[j];
        let name = arriving_name(device, cover.as_str());
        let to = path_join(dst.dir_path.as_str(), name.as_str());
        if !holds(&have, &name) && *cover != to {
            let ghost op = transfer(device, cover@, to@);
            out.push(transfer_op(device, cover.clone(), to));
            assert(out.deep_view() =~= before.push(op));
            assert(out.deep_view() =~= tracks + missing_covers(device, src@, dst@, j + 1));
        }
        j += 1;
    }
    out
}

/// A place where albums live.
pub trait Location {
    /// The operations of this location act on a device.
    spec fn on_device(&self) -> bool;

    /// The directory below which the albums of this location lie.
    spec fn root(&self) -> Seq<char>;

    /// The directory that an album arrives in.
    spec fn target_of(&self, src: AlbumView) -> Seq<char>;

    /// The directories that are made before an album arrives.
    spec fn dirs_for(&self, src: AlbumView) -> Seq<Seq<char>>;

    /// The albums at this location, given the paths of all files below its
    /// root.
    fn albums(&self, files: &Vec<String>) -> (r: Vec<Album>)
        ensures
            r.deep_view() == grouped(files.deep_view(), self.root()),
    ;

    /// The plan that brings every cover file and every track of
    /// `src_album` to this location.
    fn copy_full_album(&self, src_album: &Album) -> (r: Vec<FileOp>)
        ensures
            r.deep_view() == full_copy_ops(
                self.on_device(),
                self.dirs_for(src_album@),
                self.target_of(src_album@),
                src_album@,
            ),
    ;

    /// The plan that removes `album` from this location.
    fn del_album(&self, album: &Album) -> (r: Vec<FileOp>)
        ensures
            r.deep_view() == seq![remove_dir(self.on_device(), album@.dir_path)],
    ;

    /// The plan that brings to `dst_album` what it lacks of `src_album`.
    /// Where the directory of `dst_album` does not exist, that is all of
    /// `src_album`.
    fn copy_missing_files(&self, src_album: &Album, dst_album: &Album, dst_exists: bool) -> (r:
        Vec<FileOp>)
        ensures
            r.deep_view() == if dst_exists {
                backfill_ops(self.on_device(), src_album@, dst_album@)
            } else {
                full_copy_ops(
                    self.on_device(),
                    self.dirs_for(src_album@),
                    self.target_of(src_album@),
                    src_album@,
                )
            },
    ;

    /// A name for this location.
    fn to_string(&self) -> (r: String)
    ;
}

/// A directory of this machine as a location.
#[derive(Debug)]
pub struct DirLocation {
    pub dir: String,
}

impl DirLocation {
    /// The location at the directory `dir`.
    pub fn new(dir: String) -> (r: DirLocation)
        ensures
            r.dir@ == dir@,
    {
        DirLocation { dir }
    }
}

/// The directory in which an album arrives below `dir`: the normalised
/// artist, then the name of the directory that the album comes from.
pub open spec fn local_target(dir: Seq<char>, src: AlbumView) -> Seq<char> {
    joined_path(joined_path(dir, src.parsed_artist), file_name_of(src.dir_path))
}

impl Location for DirLocation {
    open spec fn on_device(&self) -> bool {
        false
    }

    open spec fn root(&self) -> Seq<char> {
        self.dir@
    }

    open spec fn target_of(&self, src: AlbumView) -> Seq<char> {
        local_target(self.dir@, src)
    }

    open spec fn dirs_for(&self, src: AlbumView) -> Seq<Seq<char>> {
        seq![local_target(self.dir@, src)]
    }

    fn albums(&self, files: &Vec<String>) -> (r: Vec<Album>) {
        group_files_into_albums(files, self.dir.as_str())
    }

    fn copy_full_album(&self, src_album: &Album) -> (r: Vec<FileOp>) {
        let below = path_join(self.dir.as_str(), src_album.parsed_artist.as_str());
        let name = path_file_name(src_album.dir_path.as_str());
        let target = path_join(below.as_str(), name.as_str());
        let mut dirs: Vec<String> = Vec::new();
        dirs.push(target.clone());
        assert(dirs.deep_view() =~= seq![target@]);
        plan_full_copy(false, &dirs, target.as_str(), src_album)
    }

    fn del_album(&self, album: &Album) -> (r: Vec<FileOp>) {
        let mut out: Vec<FileOp> = Vec::new();
        out.push(FileOp::RemoveDir { path: album.dir_path.clone() });
        assert(out.deep_view() =~= seq![remove_dir(false, album@.dir_path)]);
        out
    }

    fn copy_missing_files(&self, src_album: &Album, dst_album: &Album, dst_exists: bool) -> (r:
        Vec<FileOp>) {
        if dst_exists {
            plan_backfill(false, src_album, dst_album)
        } else {
            self.copy_full_album(src_album)
        }
    }

    /// The directory stands between double quotes as it is, with nothing
    /// in it escaped.
    fn to_string(&self) -> (r: String)
        ensures
            r@ == "DirLocation(\""@ + self.dir@ + "\")"@,
    {
        let mut out = chars_of("DirLocation(\"");
        let dir = chars_of(self.dir.as_str());
        append(&mut out, &dir);
        let close = chars_of("\")");
        append(&mut out, &close);
        string_of(&out)
    }
}

/// Why a device cannot serve as a location.
#[derive(Clone, Copy, Debug, PartialEq, Eq, Structural)]
pub enum LocationError {
    /// No device is connected.
    NoDevice,
    /// More than one device is connected.
    SeveralDevices,
}

/// The music directory of a device.
pub open spec fn device_root() -> Seq<char> {
    "/storage/emulated/0/Music"@
}

/// A device behind a debug bridge as a location.
#[derive(Debug)]
pub struct AdbLocation {
    pub music_dir: String,
}

/// The directory in which an album arrives on a device: below the music
/// directory the normalised artist, then the normalised title.
pub open spec fn device_target(root: Seq<char>, src: AlbumView) -> Seq<char> {
    slashed(dir_with_ft(src, root, None))
}

/// `line` without a carriage return at its end.
pub open spec fn without_return(line: Seq<char>) -> Seq<char> {
    if line.len() > 0 && line.last() == '\r' {
        line.drop_last()
    } else {
        line
    }
}

/// The lines of `text` from the line that starts at `start`, the scan
/// standing at `i`. A line ends at a line feed, or at a carriage return and
/// a line feed; what follows the last line feed is a line unless it is empty.
pub open spec fn lines_from(text: Seq<char>, start: int, i: int) -> Seq<Seq<char>>
    decreases text.len() - i,
{
    if i < 0 || start < 0 || start > i || i >= text.len() {
        if 0 <= start < text.len() {
            seq![text.subrange(start, text.len() as int)]
        } else {
            Seq::empty()
        }
    } else if text[i] == '\n' {
        seq![without_return(text.subrange(start, i))] + lines_from(text, i + 1, i + 1)
    } else {
        lines_from(text, start, i + 1)
    }
}

/// The lines of `text`.
pub open spec fn lines_of(text: Seq<char>) -> Seq<Seq<char>> {
    lines_from(text, 0, 0)
}

/// Between double quotes a shell still reads `"`, `$`, a backquote and a
/// backslash as more than themselves.
pub open spec fn read_by_shell(c: char) -> bool {
    c == '"' || c == '$' || c == '`' || c == '\\'
}

/// `p` with a backslash before each character that a shell reads as more
/// than itself between double quotes.
pub open spec fn escaped(p: Seq<char>) -> Seq<char>
    decreases p.len(),
{
    if p.len() == 0 {
        Seq::empty()
    } else if read_by_shell(p.last()) {
        escaped(p.drop_last()) + seq!['\\', p.last()]
    } else {
        escaped(p.drop_last()).push(p.last())
    }
}

/// `path` as one word for a shell: with `/` for every backslash, escaped,
/// and between double quotes.
pub open spec fn quoted(path: Seq<char>) -> Seq<char> {
    seq!['"'] + escaped(slashed(path)) + seq!['"']
}

impl AdbLocation {
    /// The location on the one connected device. `devices` is the number of
    /// devices that the bridge reports.
    pub fn new(devices: usize) -> (r: Result<AdbLocation, LocationError>)
        ensures
            match r {
                Ok(l) => devices == 1 && l.music_dir@ == device_root(),
                Err(LocationError::NoDevice) => devices == 0,
                Err(LocationError::SeveralDevices) => devices > 1,
            },
    {
        if devices == 0 {
            Err(LocationError::NoDevice)
        } else if devices > 1 {
            Err(LocationError::SeveralDevices)
        } else {
            Ok(AdbLocation { music_dir: "/storage/emulated/0/Music".to_owned() })
        }
    }

    /// The paths that the listing of the files of a device holds, one on
    /// each line.
    pub fn listing(output: &str) -> (r: Vec<String>)
        ensures
            r.deep_view() == lines_of(output@),
    {
        let text = chars_of(output);
        let mut out: Vec<String> = Vec::new();
        let mut start: usize = 0;
        let mut i: usize = 0;
        while i < text.len()
            invariant
                start <= i <= text.len(),
                out.deep_view() + lines_from(text@, start as int, i as int) == lines_of(text@),
            decreases text.len() - i,
        {
            if text[i] == '\n' {
                let mut end: usize = i;
                if end > start && text[end - 1] == '\r' {
                    end = end - 1;
                }
                let line = crate::text::slice(&text, start, end);
                proof {
                    let piece = text@.subrange(start as int, i as int);
                    if piece.len() > 0 && piece.last() == '\r' {
                        assert(line@ =~= piece.drop_last());
                    } else {
                        assert(line@ =~= piece);
                    }
                }
                let ghost before = out.deep_view();
                out.push(string_of(&line));
                assert(out.deep_view() =~= before + seq![line@]);
                start = i + 1;
            }
            i += 1;
        }
        if start < text.len() {
            let line = crate::text::slice(&text, start, text.len());
            let ghost before = out.deep_view();
            out.push(string_of(&line));
            assert(out.deep_view() =~= before + seq![line@]);
        }
        out
    }

    /// `path` as it is handed to the shell of the device: one word, in
    /// which the shell reads no character as more than itself.
    pub fn shell_quoted(path: &str) -> (r: String)
        ensures
            r@ == quoted(path@),
    {
        let mut out: Vec<char> = Vec::new();
        out.push('"');
        let p = normalize(&chars_of(path));
        let ghost open = out@;
        let mut i: usize = 0;
        assert(out@ =~= open + escaped(p@.take(0)));
        while i < p.len()
            invariant
                i <= p.len(),
                open == seq!['"'],
                out@ == open + escaped(p@.take(i as int)),
            decreases p.len() - i,
        {
            let c: char = p[i];
            let ghost before = out@;
            assert(p@.take(i + 1).drop_last() =~= p@.take(i as int));
            assert(p@.take(i + 1).last() == c);
            if c == '"' || c == '$' || c == '`' || c == '\\' {
                out.push('\\');
                out.push(c);
                assert(out@ =~= open + (escaped(p@.take(i as int)) + seq!['\\', c]));
            } else {
                out.push(c);
                assert(out@ =~= open + escaped(p@.take(i as int)).push(c));
            }
            i += 1;
        }
        assert(p@.take(p@.len() as int) =~= p@);
        out.push('"');
        string_of(&out)
    }
}

impl Location for AdbLocation {
    open spec fn on_device(&self) -> bool {
        true
    }

    open spec fn root(&self) -> Seq<char> {
        self.music_dir@
    }

    open spec fn target_of(&self, src: AlbumView) -> Seq<char> {
        device_target(self.music_dir@, src)
    }

    open spec fn dirs_for(&self, src: AlbumView) -> Seq<Seq<char>> {
        seq![joined_path(self.music_dir@, src.parsed_artist), device_target(self.music_dir@, src)]
    }

    fn albums(&self, files: &Vec<String>) -> (r: Vec<Album>) {
        group_files_into_albums(files, self.music_dir.as_str())
    }

    fn copy_full_album(&self, src_album: &Album) -> (r: Vec<FileOp>) {
        let artist_dir = path_join(self.music_dir.as_str(), src_album.parsed_artist.as_str());
        let album_dir = src_album.album_dir_with_ft(self.music_dir.clone(), &None);
        let target = string_of(&normalize(&chars_of(album_dir.as_str())));
        let mut dirs: Vec<String> = Vec::new();
        dirs.push(artist_dir);
        dirs.push(target.clone());
        assert(dirs.deep_view() =~= self.dirs_for(src_album@));
        plan_full_copy(true, &dirs, target.as_str(), src_album)
    }

    fn del_album(&self, album: &Album) -> (r: Vec<FileOp>) {
        let mut out: Vec<FileOp> = Vec::new();
        out.push(FileOp::DeviceRemoveDir { path: album.dir_path.clone() });
        assert(out.deep_view() =~= seq![remove_dir(true, album@.dir_path)]);
        out
    }

    fn copy_missing_files(&self, src_album: &Album, dst_album: &Album, dst_exists: bool) -> (r:
        Vec<FileOp>) {
        if dst_exists {
            plan_backfill(true, src_album, dst_album)
        } else {
            self.copy_full_album(src_album)
        }
    }

    fn to_string(&self) -> (r: String)
        ensures
            r@ == "AdbLocation"@,
    {
        "AdbLocation".to_owned()
    }
}

} // verus!
