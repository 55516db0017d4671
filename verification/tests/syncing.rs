use morg::album::Album;
use morg::catalog::{create_source_album_lookup, group_files_into_albums, Source, SourceIndex};
use morg::convert::{convert_src_album, ConvertError};
use morg::file_type::FileType;
use morg::location::{AdbLocation, DirLocation, FileOp, Location, LocationError};
use morg::sync::{
    ensure_album_is_in_location, get_ft_src_album, may_continue, missing_albums, order_destinations,
    sync_to_loc, Decision, Destination, DestinationConfig, SyncError,
};

fn s(text: &str) -> String {
    text.to_string()
}

fn paths(list: &[&str]) -> Vec<String> {
    list.iter().map(|p| p.to_string()).collect()
}

fn index_of(root: &str, files: &[&str]) -> SourceIndex {
    let albums = group_files_into_albums(&paths(files), root);
    create_source_album_lookup(&vec![Source { root: s(root), albums }])
}

fn copy(from: &str, to: &str) -> FileOp {
    FileOp::CopyFile { from: s(from), to: s(to) }
}

const FLAC_TRACK: &str = "/src/Poppy/Poppy - Choke [FLAC]/01 Track.flac";
const FLAC_COVER: &str = "/src/Poppy/Poppy - Choke [FLAC]/cover.jpg";

#[test]
fn a_missing_album_is_converted_and_brought() {
    let index = index_of("/src", &[FLAC_TRACK, FLAC_COVER]);
    let dst = DirLocation::new(s("/dst"));
    let plans = sync_to_loc(&dst, &FileType::MP3, &index, &vec![], false);
    assert_eq!(plans.len(), 1);
    assert_eq!(plans[0].key, "Poppy###Choke");
    assert_eq!(plans[0].decision, Decision::Add);
    let expected = vec![
        FileOp::MakeDir { path: s("/src/Poppy/Choke [MP3]") },
        copy(FLAC_COVER, "/src/Poppy/Choke [MP3]/cover.jpg"),
        FileOp::Encode {
            args: paths(&[
                "-i",
                FLAC_TRACK,
                "-ab",
                "320k",
                "-map_metadata",
                "0",
                "-id3v2_version",
                "3",
                "-write_id3v1",
                "1",
                "/src/Poppy/Choke [MP3]/01 Track.mp3",
            ]),
        },
        FileOp::MakeDir { path: s("/dst/Poppy/Choke [MP3]") },
        copy(FLAC_COVER, "/dst/Poppy/Choke [MP3]/cover.jpg"),
        copy("/src/Poppy/Choke [MP3]/01 Track.mp3", "/dst/Poppy/Choke [MP3]/01 Track.mp3"),
    ];
    assert_eq!(plans[0].ops, expected);
}

#[test]
fn a_second_pass_does_nothing() {
    let index = index_of(
        "/src",
        &[
            FLAC_TRACK,
            FLAC_COVER,
            "/src/Poppy/Choke [MP3]/01 Track.mp3",
            "/src/Poppy/Choke [MP3]/cover.jpg",
        ],
    );
    let dst = DirLocation::new(s("/dst"));
    let there = dst.albums(&paths(&[
        "/dst/Poppy/Choke [MP3]/01 Track.mp3",
        "/dst/Poppy/Choke [MP3]/cover.jpg",
    ]));
    assert_eq!(there.len(), 1);
    assert_eq!(there[0].key(), "Poppy###Choke");
    let plans = sync_to_loc(&dst, &FileType::MP3, &index, &there, false);
    assert_eq!(plans.len(), 1);
    assert_eq!(plans[0].decision, Decision::Backfill);
    assert!(plans.iter().all(|p| p.ops.is_empty()));
}

#[test]
fn an_album_without_source_is_left_untouched() {
    let index = index_of("/src", &["/src/A/T [MP3]/1.mp3"]);
    let dst = DirLocation::new(s("/dst"));
    let there = dst.albums(&paths(&["/dst/A/T [MP3]/1.mp3"]));
    let plans = sync_to_loc(&dst, &FileType::Flac, &index, &there, false);
    assert_eq!(plans.len(), 1);
    assert_eq!(plans[0].decision, Decision::Untouched);
    assert!(plans[0].ops.is_empty());
    let lenient = sync_to_loc(&dst, &FileType::Flac, &index, &there, true);
    assert_eq!(lenient[0].decision, Decision::Accept);
    assert!(lenient[0].ops.is_empty());
}

#[test]
fn a_wrong_format_is_replaced() {
    let index = index_of("/src", &["/src/A/T [FLAC]/1.flac"]);
    let dst = DirLocation::new(s("/dst"));
    let there = dst.albums(&paths(&["/dst/A/T [MP3]/1.mp3"]));
    let plans = sync_to_loc(&dst, &FileType::Flac, &index, &there, false);
    assert_eq!(plans.len(), 1);
    assert_eq!(plans[0].decision, Decision::Replace);
    assert_eq!(
        plans[0].ops,
        vec![
            FileOp::RemoveDir { path: s("/dst/A/T [MP3]") },
            FileOp::MakeDir { path: s("/dst/A/T [FLAC]") },
            copy("/src/A/T [FLAC]/1.flac", "/dst/A/T [FLAC]/1.flac"),
        ]
    );
}

#[test]
fn a_wrong_format_stays_beside_the_right_one() {
    let index = index_of("/src", &["/src/A/T [FLAC]/1.flac"]);
    let dst = DirLocation::new(s("/dst"));
    let there = dst.albums(&paths(&["/dst/A/T [MP3]/1.mp3", "/dst/A/T [FLAC]/1.flac"]));
    let plans = sync_to_loc(&dst, &FileType::Flac, &index, &there, false);
    assert_eq!(plans.len(), 2);
    assert_eq!(plans[0].decision, Decision::Untouched);
    assert_eq!(plans[1].decision, Decision::Backfill);
    assert!(plans.iter().all(|p| p.ops.is_empty()));
}

#[test]
fn mixed_albums_are_reported_and_kept_albums_stay() {
    let index = SourceIndex::new();
    let dst = DirLocation::new(s("/dst"));
    let there = dst.albums(&paths(&["/dst/A/T/1.mp3", "/dst/A/T/2.flac", "/dst/A/U/1.mp3"]));
    let plans = sync_to_loc(&dst, &FileType::MP3, &index, &there, false);
    assert_eq!(plans.len(), 2);
    assert_eq!(plans[0].decision, Decision::UnknownType);
    assert_eq!(plans[1].decision, Decision::Keep);
}

#[test]
fn any_format_is_brought_where_it_is_allowed() {
    let index = index_of("/src", &["/src/A/T/1.m4a", "/src/A/T [mp3]/1.mp3"]);
    let dst = DirLocation::new(s("/dst"));
    let strict = sync_to_loc(&dst, &FileType::Flac, &index, &vec![], false);
    assert_eq!(strict.len(), 1);
    assert_eq!(strict[0].decision, Decision::NoSuitableSource);
    assert!(strict[0].ops.is_empty());
    let lenient = sync_to_loc(&dst, &FileType::Flac, &index, &vec![], true);
    assert_eq!(lenient.len(), 1);
    assert_eq!(lenient[0].decision, Decision::AddFallback(FileType::MP3));
    assert_eq!(
        lenient[0].ops,
        vec![
            FileOp::MakeDir { path: s("/dst/A/T [mp3]") },
            copy("/src/A/T [mp3]/1.mp3", "/dst/A/T [mp3]/1.mp3"),
        ]
    );
}

#[test]
fn the_plan_for_one_album_names_the_format_that_arrives() {
    let index = index_of("/src", &["/src/A/T/1.wav"]);
    let dst = DirLocation::new(s("/dst"));
    let album = index.entries[0].album.clone();
    let exact = ensure_album_is_in_location(&album, &FileType::Wav, &index, &dst, false).unwrap();
    assert_eq!(exact.0, FileType::Wav);
    assert_eq!(exact.1.len(), 2);
    let converted = ensure_album_is_in_location(&album, &FileType::MP3, &index, &dst, false).unwrap();
    assert_eq!(converted.0, FileType::MP3);
    assert_eq!(converted.1.len(), 4);
    let refused = ensure_album_is_in_location(&album, &FileType::M4A, &index, &dst, false);
    assert_eq!(refused.err(), Some(SyncError::NoSuitableSource));
    let fallback = ensure_album_is_in_location(&album, &FileType::M4A, &index, &dst, true).unwrap();
    assert_eq!(fallback.0, FileType::Wav);
}

#[test]
fn the_best_copy_prefers_the_exact_album() {
    let index = index_of("/src", &["/src/A/T [FLAC]/1.flac", "/src/A/T [WAV]/1.wav", "/src/A/T [MP3]/1.mp3"]);
    let album = index.entries[0].album.clone();
    let exact = get_ft_src_album(&album, &FileType::MP3, &index).unwrap();
    assert!(exact.preparation.is_empty());
    assert_eq!(exact.album.dir_path, "/src/A/T [MP3]");
    let lossless = get_ft_src_album(&album, &FileType::Wav, &index).unwrap();
    assert_eq!(lossless.album.dir_path, "/src/A/T [WAV]");
    assert!(get_ft_src_album(&album, &FileType::M4A, &index).is_none());
    let only_wav = index_of("/src", &["/src/A/T [WAV]/1.wav"]);
    let from_wav = get_ft_src_album(&album, &FileType::MP3, &only_wav).unwrap();
    assert_eq!(from_wav.album.tracks, vec![s("1.mp3")]);
    assert_eq!(from_wav.preparation.len(), 2);
    assert!(get_ft_src_album(&album, &FileType::Flac, &only_wav).is_none());
}

#[test]
fn later_sources_win_in_the_index() {
    let first = group_files_into_albums(&paths(&["/a/A/T/1.mp3", "/a/A/U/1.mp3", "/a/A/M/1.mp3", "/a/A/M/2.flac"]), "/a");
    let second = group_files_into_albums(&paths(&["/b/A/T/1.mp3", "/b/A/T/2.mp3"]), "/b");
    let index = create_source_album_lookup(&vec![
        Source { root: s("/a"), albums: first },
        Source { root: s("/b"), albums: second },
    ]);
    assert_eq!(index.entries.len(), 2);
    assert_eq!(index.entries[0].key, "A###T");
    assert_eq!(index.entries[0].root, "/b");
    assert_eq!(index.entries[0].album.tracks.len(), 2);
    assert_eq!(index.entries[1].key, "A###U");
    assert!(index.get(&s("A###T"), FileType::MP3).is_some());
    assert!(index.get(&s("A###T"), FileType::Flac).is_none());
    assert!(index.get(&s("A###M"), FileType::MP3).is_none());
}

#[test]
fn lossy_sources_are_never_made_lossless() {
    let album = group_files_into_albums(&paths(&["/src/A/T/1.mp3"]), "/src").remove(0);
    assert_eq!(convert_src_album("/src", &album, &FileType::Flac).err(), Some(ConvertError::LossyToLossless));
    assert_eq!(convert_src_album("/src", &album, &FileType::Wav).err(), Some(ConvertError::LossyToLossless));
    assert_eq!(convert_src_album("/src", &album, &FileType::M4A).err(), Some(ConvertError::UnsupportedTarget));
    let mixed = group_files_into_albums(&paths(&["/src/A/T/1.mp3", "/src/A/T/2.wav"]), "/src").remove(0);
    assert_eq!(convert_src_album("/src", &mixed, &FileType::MP3).err(), Some(ConvertError::UnknownSourceType));
}

#[test]
fn a_conversion_counts_only_if_every_track_was_encoded() {
    let album = group_files_into_albums(&paths(&["/src/A/T/1.wav", "/src/A/T/2.wav"]), "/src").remove(0);
    let plan = convert_src_album("/src", &album, &FileType::Flac).unwrap();
    assert_eq!(plan.album.tracks, vec![s("1.flac"), s("2.flac")]);
    assert_eq!(plan.album.dir_path, "/src/A/T [FLAC]");
    assert_eq!(
        plan.ops[1],
        FileOp::Encode { args: paths(&["-i", "/src/A/T/1.wav", "/src/A/T [FLAC]/1.flac"]) }
    );
    assert_eq!(plan.outcome(&vec![true, false]).err(), Some(ConvertError::EncoderFailed));
    let again = convert_src_album("/src", &album, &FileType::Flac).unwrap();
    assert_eq!(again.outcome(&vec![true]).err(), Some(ConvertError::EncoderFailed));
    let third = convert_src_album("/src", &album, &FileType::Flac).unwrap();
    let done: Album = third.outcome(&vec![true, true]).unwrap();
    assert_eq!(done.tracks.len(), 2);
}

#[test]
fn only_the_missing_track_is_copied() {
    let src = group_files_into_albums(&paths(&["/src/A/T/1.mp3", "/src/A/T/2.mp3", "/src/A/T/3.mp3", "/src/A/T/cover.jpg"]), "/src").remove(0);
    let dst_album = group_files_into_albums(&paths(&["/dst/A/T/1.mp3", "/dst/A/T/3.mp3", "/dst/A/T/cover.jpg"]), "/dst").remove(0);
    let dst = DirLocation::new(s("/dst"));
    assert_eq!(dst.copy_missing_files(&src, &dst_album, true), vec![copy("/src/A/T/2.mp3", "/dst/A/T/2.mp3")]);
    let bare = group_files_into_albums(&paths(&["/dst/A/T/1.mp3"]), "/dst").remove(0);
    assert_eq!(
        dst.copy_missing_files(&src, &bare, true),
        vec![
            copy("/src/A/T/2.mp3", "/dst/A/T/2.mp3"),
            copy("/src/A/T/3.mp3", "/dst/A/T/3.mp3"),
            copy("/src/A/T/cover.jpg", "/dst/A/T/cover.jpg"),
        ]
    );
    assert!(dst.copy_missing_files(&src, &src, true).is_empty());
    assert_eq!(dst.copy_missing_files(&src, &bare, false), dst.copy_full_album(&src));
    assert_eq!(dst.del_album(&bare), vec![FileOp::RemoveDir { path: s("/dst/A/T") }]);
    assert_eq!(dst.to_string(), "DirLocation(\"/dst\")");
}

#[test]
fn a_device_gets_its_directories_and_files() {
    let device = AdbLocation::new(1).unwrap();
    let album = group_files_into_albums(&paths(&["C:\\m\\Poppy\\Choke [MP3]\\01 Track.mp3", "C:\\m\\Poppy\\Choke [MP3]\\cover.jpeg"]), "C:\\m").remove(0);
    let push = |local: &str, remote: &str| FileOp::DevicePush { local: s(local), remote: s(remote) };
    assert_eq!(
        device.copy_full_album(&album),
        vec![
            FileOp::DeviceMakeDir { path: s("/storage/emulated/0/Music/Poppy") },
            FileOp::DeviceMakeDir { path: s("/storage/emulated/0/Music/Poppy/Choke") },
            push("C:/m/Poppy/Choke [MP3]/cover.jpeg", "/storage/emulated/0/Music/Poppy/Choke/cover.jpg"),
            push("C:/m/Poppy/Choke [MP3]/01 Track.mp3", "/storage/emulated/0/Music/Poppy/Choke/01 Track.mp3"),
        ]
    );
    let there = device.albums(&AdbLocation::listing(
        "/storage/emulated/0/Music/Poppy/Choke/01 Track.mp3\r\n/storage/emulated/0/Music/Poppy/Choke/cover.jpg\n",
    ));
    assert_eq!(there.len(), 1);
    assert_eq!(there[0].key(), album.key());
    assert!(device.copy_missing_files(&album, &there[0], true).is_empty());
    assert_eq!(device.copy_missing_files(&album, &there[0], false).len(), 4);
    assert_eq!(
        device.del_album(&there[0]),
        vec![FileOp::DeviceRemoveDir { path: s("/storage/emulated/0/Music/Poppy/Choke") }]
    );
    assert_eq!(device.to_string(), "AdbLocation");
    assert_eq!(AdbLocation::shell_quoted("/a\\b c"), "\"/a/b c\"");
}

#[test]
fn a_device_location_needs_one_device() {
    assert_eq!(AdbLocation::new(0).err(), Some(LocationError::NoDevice));
    assert_eq!(AdbLocation::new(2).err(), Some(LocationError::SeveralDevices));
    assert_eq!(AdbLocation::new(1).unwrap().music_dir, "/storage/emulated/0/Music");
}

#[test]
fn a_listing_is_split_into_lines() {
    assert_eq!(AdbLocation::listing("a\nb\r\n\nc"), paths(&["a", "b", "", "c"]));
    assert_eq!(AdbLocation::listing(""), Vec::<String>::new());
    assert_eq!(AdbLocation::listing("\n"), paths(&[""]));
    assert_eq!(AdbLocation::listing("a\r"), paths(&["a\r"]));
}

#[test]
fn directories_are_reconciled_before_the_device() {
    let config = |d: Destination| DestinationConfig { destination: d, file_type: FileType::MP3, allow_any: false };
    let given = vec![
        config(Destination::ADBDest),
        config(Destination::PathDest(s("/x"))),
        config(Destination::PathDest(s("/src"))),
        config(Destination::PathDest(s("/y"))),
    ];
    let ordered = order_destinations(&given, &paths(&["/src"]));
    let dirs: Vec<Option<String>> = ordered
        .iter()
        .map(|d| match &d.destination {
            Destination::PathDest(p) => Some(p.clone()),
            Destination::ADBDest => None,
        })
        .collect();
    assert_eq!(dirs, vec![Some(s("/src")), Some(s("/x")), Some(s("/y")), None]);
}

#[test]
fn albums_that_a_destination_lacks_are_listed_once() {
    let src = group_files_into_albums(&paths(&["/a/A/T/1.mp3", "/a/A/T [FLAC]/1.flac", "/a/A/U/1.mp3", "/a/B/V/1.mp3"]), "/a");
    let dst = group_files_into_albums(&paths(&["/b/A/U [MP3]/1.mp3"]), "/b");
    assert_eq!(missing_albums(&src, &dst), vec![0, 3]);
    assert_eq!(missing_albums(&dst, &src), Vec::<usize>::new());
}

#[test]
fn only_a_failed_encoding_ends_a_plan() {
    let encode = FileOp::Encode { args: paths(&["-i", "a", "b"]) };
    assert!(may_continue(&encode, true));
    assert!(!may_continue(&encode, false));
    assert!(may_continue(&copy("a", "b"), false));
    assert!(may_continue(&FileOp::DevicePush { local: s("a"), remote: s("b") }, false));
    assert!(may_continue(&FileOp::RemoveDir { path: s("a") }, false));
}

#[test]
fn a_quoted_path_is_one_word_for_the_shell() {
    assert_eq!(AdbLocation::shell_quoted("/a/$b \"c\" `d`"), "\"/a/\\$b \\\"c\\\" \\`d\\`\"");
    assert_eq!(AdbLocation::shell_quoted(""), "\"\"");
    assert_eq!(AdbLocation::shell_quoted("plain name"), "\"plain name\"");
}
