use morg::album::Album;
use morg::catalog::{album_from_parts, group_files_into_albums, is_image, is_music, path_to_details, ParseError};
use morg::file_type::FileType;

fn s(text: &str) -> String {
    text.to_string()
}

#[test]
fn test_parse_track_info() {
    let album = path_to_details(
        s("G:\\Music\\Poppy\\Poppy - Negative Spaces [MP3]\\Poppy - Negative Spaces - 04 yesterday.mp3"),
        s("G:\\Music"),
    )
    .unwrap();
    assert_eq!(album.parsed_artist, "Poppy".to_string());
    assert_eq!(album.parsed_title, "Negative Spaces".to_string());
}

#[test]
fn three_segments_are_artist_album_and_file() {
    let album = path_to_details(s("/music/Poppy/Negative Spaces [MP3]/04 yesterday.mp3"), s("/music")).unwrap();
    assert_eq!(album.artist, "Poppy");
    assert_eq!(album.title, "Negative Spaces [MP3]");
    assert_eq!(album.parsed_title, "Negative Spaces");
    assert_eq!(album.parsed_artist, "Poppy");
    assert_eq!(album.tracks, vec![s("04 yesterday.mp3")]);
    assert_eq!(album.dir_path, "/music/Poppy/Negative Spaces [MP3]");
    assert!(album.cover_files.is_empty());
    assert_eq!(album.key(), "Poppy###Negative Spaces");
}

#[test]
fn deeper_paths_join_the_middle_names() {
    let album = path_to_details(s("/m/A/B/C/01 x.flac"), s("/m")).unwrap();
    assert_eq!(album.artist, "A");
    assert_eq!(album.title, "B - C");
    assert_eq!(album.tracks, vec![s("01 x.flac")]);
    assert_eq!(album.dir_path, "/m/A/B/C");
}

#[test]
fn two_segments_split_the_first_name() {
    let album = path_to_details(s("/m/Poppy - Choke/01 Track.flac"), s("/m")).unwrap();
    assert_eq!(album.artist, "Poppy");
    assert_eq!(album.title, "Choke");
    assert_eq!(album.tracks, vec![s("01 Track.flac")]);
}

#[test]
fn two_segments_split_the_file_name() {
    let album = path_to_details(s("/m/Poppy/Poppy - Choke - 05 The Holy Mountain.flac"), s("/m")).unwrap();
    assert_eq!(album.artist, "Poppy");
    assert_eq!(album.title, "Choke");
    assert_eq!(album.tracks, vec![s("05 The Holy Mountain.flac")]);
    assert_eq!(album.dir_path, "/m/Poppy");
}

#[test]
fn two_segments_without_delimiter_fail() {
    let r = path_to_details(s("/m/Poppy/track.flac"), s("/m"));
    assert!(matches!(r, Err(ParseError::MissingDelimiter)));
}

#[test]
fn one_segment_is_too_few() {
    let r = path_to_details(s("/m/track.flac"), s("/m"));
    assert!(matches!(r, Err(ParseError::TooFewComponents)));
}

#[test]
fn a_relative_path_has_no_way_from_an_absolute_root() {
    let r = path_to_details(s("a/b/c.mp3"), s("/m"));
    assert!(matches!(r, Err(ParseError::NotBelowRoot)));
}

#[test]
fn covers_and_other_files_are_told_apart() {
    let cover = path_to_details(s("/m/A/B/cover.jpg"), s("/m")).unwrap();
    assert_eq!(cover.cover_files, vec![s("/m/A/B/cover.jpg")]);
    assert!(cover.tracks.is_empty());
    let other = path_to_details(s("/m/A/B/notes.txt"), s("/m")).unwrap();
    assert!(other.cover_files.is_empty());
    assert!(other.tracks.is_empty());
    assert_eq!(other.title, "B");
    assert!(is_image("x/cover.jpeg"));
    assert!(is_image("cover.png"));
    assert!(!is_image("cover.JPG"));
    assert!(!is_image(".png"));
    assert!(is_music("a.b/c.m4a"));
    assert!(is_music("c.wav"));
    assert!(!is_music("a.mp3/c"));
}

#[test]
fn annotation_is_matched_in_any_case() {
    let album = path_to_details(s("/m/A/Title [Flac] /01.flac"), s("/m")).unwrap();
    assert_eq!(album.title, "Title [Flac] ");
    assert_eq!(album.parsed_title, "Title");
    assert_eq!(album.title_without_filetype(), "Title");
    let plain = path_to_details(s("/m/A/Title [live]/01.flac"), s("/m")).unwrap();
    assert_eq!(plain.parsed_title, "Title [live]");
}

#[test]
fn parts_decide_without_the_path_difference() {
    let parts = vec![s("A"), s("B [WAV]"), s("t.wav")];
    let album = album_from_parts(&parts, "/x/A/B [WAV]/t.wav").unwrap();
    assert_eq!(album.parsed_title, "B");
    assert_eq!(album.file_type(), Some(FileType::Wav));
    assert!(matches!(album_from_parts(&parts, ""), Err(ParseError::NoParent)));
}

#[test]
fn files_of_one_directory_become_one_album() {
    let files = vec![
        s("/m/A/B/02 b.mp3"),
        s("/m/A/B/cover.jpg"),
        s("/m/A/C/01 c.flac"),
        s("/m/A/B/01 a.mp3"),
        s("/m/stray.mp3"),
    ];
    let albums: Vec<Album> = group_files_into_albums(&files, "/m");
    assert_eq!(albums.len(), 2);
    assert_eq!(albums[0].title, "B");
    assert_eq!(albums[0].tracks, vec![s("01 a.mp3"), s("02 b.mp3")]);
    assert_eq!(albums[0].cover_files, vec![s("/m/A/B/cover.jpg")]);
    assert_eq!(albums[0].file_type(), Some(FileType::MP3));
    assert_eq!(albums[1].title, "C");
    assert_eq!(albums[1].tracks, vec![s("01 c.flac")]);
}
