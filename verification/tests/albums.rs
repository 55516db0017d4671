use morg::album::{normalize_title, Album, MergeError};
use morg::file_type::FileType;

fn s(text: &str) -> String {
    text.to_string()
}

fn album(title: &str, artist: &str, tracks: &[&str], dir: &str, covers: &[&str]) -> Album {
    Album::new(
        s(title),
        s(artist),
        tracks.iter().map(|t| t.to_string()).collect(),
        s(dir),
        covers.iter().map(|t| t.to_string()).collect(),
        s(title),
        s(artist),
    )
}

#[test]
fn merging_across_directories_fails() {
    let a = album("T", "A", &["1.mp3"], "/m/A/T", &[]);
    let b = album("T", "A", &["2.mp3"], "/n/A/T", &[]);
    assert!(matches!(a.merge_with(&b), Err(MergeError::DirectoryDiffers)));
    let c = album("U", "A", &["2.mp3"], "/m/A/T", &[]);
    assert!(matches!(a.merge_with(&c), Err(MergeError::TitleDiffers)));
    let d = album("T", "B", &["2.mp3"], "/m/A/T", &[]);
    assert!(matches!(a.merge_with(&d), Err(MergeError::ArtistDiffers)));
}

#[test]
fn merging_gives_the_sorted_union() {
    let a = album("T", "A", &["03 c.mp3", "01 a.mp3"], "/m/A/T", &["/m/A/T/cover.jpg"]);
    let b = album("T", "A", &["02 b.mp3", "04 d.mp3"], "/m/A/T", &["/m/A/T/back.png", "/m/A/T/cover.jpg"]);
    let m = a.merge_with(&b).unwrap();
    assert_eq!(m.tracks, vec![s("01 a.mp3"), s("02 b.mp3"), s("03 c.mp3"), s("04 d.mp3")]);
    assert_eq!(m.cover_files, vec![s("/m/A/T/cover.jpg"), s("/m/A/T/back.png")]);
    assert_eq!(m.title, "T");
    assert_eq!(m.dir_path, "/m/A/T");
}

#[test]
fn merging_drops_repeated_tracks() {
    let a = album("T", "A", &["b.mp3", "a.mp3", "b.mp3"], "/m", &[]);
    let b = album("T", "A", &["a.mp3", "c.mp3"], "/m", &[]);
    let m = a.merge_with(&b).unwrap();
    assert_eq!(m.tracks, vec![s("a.mp3"), s("b.mp3"), s("c.mp3")]);
}

#[test]
fn tracks_sort_by_their_characters() {
    let a = album("T", "A", &["b", "B", "ab", "a", "é"], "/m", &[]);
    let m = a.merge_with(&album("T", "A", &[], "/m", &[])).unwrap();
    let mut expected = vec![s("b"), s("B"), s("ab"), s("a"), s("é")];
    expected.sort();
    assert_eq!(m.tracks, expected);
}

#[test]
fn file_type_needs_every_track_to_agree() {
    assert_eq!(album("T", "A", &["1.flac", "2.flac"], "/m", &[]).file_type(), Some(FileType::Flac));
    assert_eq!(album("T", "A", &["1.flac", "2.mp3"], "/m", &[]).file_type(), None);
    assert_eq!(album("T", "A", &[], "/m", &[]).file_type(), None);
    assert_eq!(album("T", "A", &["1.m4a"], "/m", &[]).file_type(), Some(FileType::M4A));
    assert_eq!(album("T", "A", &["1.ogg"], "/m", &[]).file_type(), None);
    assert_eq!(album("T", "A", &["1.mp3", "readme"], "/m", &[]).file_type(), None);
    assert_eq!(album("T", "A", &["1.MP3"], "/m", &[]).file_type(), None);
}

#[test]
fn directory_carries_the_format_in_upper_case() {
    let a = album("Choke", "Poppy", &[], "/src/Poppy/Poppy - Choke [FLAC]", &[]);
    assert_eq!(a.album_dir_with_ft(s("/src"), &Some(FileType::MP3)), "/src/Poppy/Choke [MP3]");
    assert_eq!(a.album_dir_with_ft(s("/src/"), &None), "/src/Poppy/Choke");
    assert_eq!(a.album_dir_with_ft(s(""), &Some(FileType::Flac)), "Poppy/Choke [FLAC]");
}

#[test]
fn key_joins_artist_and_title() {
    let a = album("Choke", "Poppy", &[], "/x", &[]);
    assert_eq!(a.key(), "Poppy###Choke");
}

#[test]
fn overview_names_the_album() {
    let a = album("Choke [flac]", "Poppy", &["1.flac", "2.flac"], "/x/y", &["/x/y/c.jpg"]);
    assert_eq!(a.overview(), "Poppy - Choke (\"/x/y\"; 2 tracks, 1 cover files)");
    let many: Vec<String> = (0..120).map(|i| format!("{i}.mp3")).collect();
    let b = Album::new(s("T"), s("A"), many, s("/d"), vec![], s("T"), s("A"));
    assert_eq!(b.overview(), "A - T (\"/d\"; 120 tracks, 0 cover files)");
}

#[test]
fn normalised_title_drops_artist_and_format() {
    assert_eq!(normalize_title("Poppy - Choke [FLAC]", "Poppy"), "Choke");
    assert_eq!(normalize_title("  Choke [mp3]  ", "Poppy"), "Choke");
    assert_eq!(normalize_title("Choke [mp3] [wav]", "Poppy"), "Choke [mp3]");
    assert_eq!(normalize_title("Choke[M4a]", "Poppy"), "Choke");
    assert_eq!(normalize_title("Poppy - Poppy - X", "Poppy"), "Poppy - X");
    assert_eq!(normalize_title("[WAV]", "Poppy"), "");
}

#[test]
fn finalize_takes_the_most_frequent_artist() {
    let mut a = album("X - Choke [FLAC]", "folder", &["1.flac"], "/x", &[]);
    a.finalize(&vec![s("Y"), s("X"), s("Y"), s("X"), s("Z")]);
    assert_eq!(a.artist, "Y");
    assert_eq!(a.parsed_artist, "Y");
    assert_eq!(a.parsed_title, "X - Choke");
    let mut b = album("X - Choke [FLAC]", "folder", &["1.flac"], "/x", &[]);
    b.finalize(&vec![s("Y"), s("X"), s("X")]);
    assert_eq!(b.artist, "X");
    assert_eq!(b.parsed_title, "Choke");
    let mut c = album("folder - Choke [FLAC]", "folder", &["1.flac"], "/x", &[]);
    c.finalize(&vec![]);
    assert_eq!(c.artist, "folder");
    assert_eq!(c.parsed_artist, "folder");
    assert_eq!(c.parsed_title, "Choke");
    assert_eq!(c.title, "folder - Choke [FLAC]");
}

#[test]
fn clone_keeps_every_field() {
    let a = album("T", "A", &["1.mp3"], "/m", &["/m/c.png"]);
    let b = a.clone();
    assert_eq!(b.title, a.title);
    assert_eq!(b.tracks, a.tracks);
    assert_eq!(b.cover_files, a.cover_files);
    assert_eq!(b.dir_path, a.dir_path);
}

#[test]
fn merged_covers_hold_each_path_once() {
    let a = album("T", "A", &[], "/m", &["/m/c.jpg", "/m/c.jpg", "/m/b.png"]);
    let b = album("T", "A", &[], "/m", &["/m/b.png", "/m/d.png", "/m/d.png", "/m/c.jpg"]);
    let m = a.merge_with(&b).unwrap();
    assert_eq!(m.cover_files, vec![s("/m/c.jpg"), s("/m/b.png"), s("/m/d.png")]);
    let n = b.merge_with(&a).unwrap();
    assert_eq!(n.cover_files, vec![s("/m/b.png"), s("/m/d.png"), s("/m/c.jpg")]);
}
