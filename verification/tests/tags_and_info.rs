use morg::album::Album;
use morg::check::{album_issue, is_duplicate, is_nested_in, is_nested_too_deeply, title_starts_with_number, Finding};
use morg::file_type::FileType;
use morg::music_info::{
    album_info_from_result, best_result, cover_path, parse_results, search_title, AlbumInfo, InfoError,
    MusicInfoCache, SearchResult,
};
use morg::music_tags::{
    fill_missing_tags, get_tag, parse_track_info, set_missing_tags, set_tags, track_info_from, TagError,
    TagKind, TrackInfo, TrackTags,
};

fn s(text: &str) -> String {
    text.to_string()
}

fn album(title: &str, artist: &str, tracks: &[&str], dir: &str) -> Album {
    Album::new(s(title), s(artist), tracks.iter().map(|t| t.to_string()).collect(), s(dir), vec![], s(title), s(artist))
}

fn info(artist: &str, title: &str, year: Option<i32>) -> AlbumInfo {
    AlbumInfo { artist: s(artist), title: s(title), year }
}

fn no_tags() -> TrackTags {
    TrackTags { album_title: None, album_artist: None, artist: None, title: None, year: None, disc_number: None, track_number: None }
}

fn result(title: Option<&str>) -> SearchResult {
    SearchResult {
        has_title: title.is_some(),
        title: s(title.unwrap_or("null")),
        year: None,
        has_cover: false,
        cover_image: None,
    }
}

#[test]
fn the_file_name_gives_number_and_title() {
    let a = album("Negative Spaces", "Poppy", &[], "/m");
    let i = info("Poppy", "Negative Spaces", None);
    let t = parse_track_info("04 yesterday.mp3", &a, &i);
    assert_eq!(t.track_number, Some(4));
    assert_eq!(t.disc_number, None);
    assert_eq!(t.title, "yesterday");
    let u = parse_track_info("1-07 - Poppy - crystallized.flac", &a, &i);
    assert_eq!(u.track_number, Some(7));
    assert_eq!(u.disc_number, None);
    assert_eq!(u.title, "crystallized");
    let v = parse_track_info("Poppy - Negative Spaces - 04 yesterday.mp3", &a, &i);
    assert_eq!(v.track_number, None);
    assert_eq!(v.title, "04 yesterday");
    let w = parse_track_info("nospace.mp3", &a, &i);
    assert_eq!(w.title, "");
    assert_eq!(w.track_number, None);
    let x = parse_track_info("99999 big", &a, &i);
    assert_eq!(x.track_number, None);
    assert_eq!(x.title, "");
    let y = parse_track_info("x12y rest.of.name", &a, &i);
    assert_eq!(y.track_number, Some(12));
    assert_eq!(y.title, "rest.of");
}

#[test]
fn groups_decide_the_numbers() {
    let names = vec![s("Poppy")];
    let t = track_info_from("a - - Poppy - b.c", &Some((Some(s("3")), Some(s("+12")))), &names);
    assert_eq!(t.disc_number, Some(3));
    assert_eq!(t.track_number, Some(12));
    assert_eq!(t.title, "b");
    let u = track_info_from("a b.c", &Some((Some(s("-1")), Some(s("65536")))), &names);
    assert_eq!(u.disc_number, None);
    assert_eq!(u.track_number, None);
    let v = track_info_from("a b.c", &Some((Some(s("")), Some(s("65535")))), &names);
    assert_eq!(v.disc_number, None);
    assert_eq!(v.track_number, Some(65535));
}

#[test]
fn missing_tags_are_filled_in() {
    let a = album("Negative Spaces", "Poppy", &["04 yesterday.mp3"], "/m");
    let i = info("Poppy", "Negative Spaces", Some(2024));
    let filled = set_missing_tags("04 yesterday.mp3", &a, &i, no_tags());
    assert_eq!(filled.album_title, Some(s("Negative Spaces")));
    assert_eq!(filled.album_artist, Some(s("Poppy")));
    assert_eq!(filled.artist, Some(s("Poppy")));
    assert_eq!(filled.title, Some(s("yesterday")));
    assert_eq!(filled.track_number, Some(4));
    assert_eq!(filled.disc_number, None);
    assert_eq!(filled.year, None);
    let had = TrackTags {
        album_title: Some(s("X")),
        album_artist: Some(s("")),
        artist: Some(s("Y")),
        title: Some(s("Z")),
        year: Some(1999),
        disc_number: Some(2),
        track_number: Some(9),
    };
    let kept = set_missing_tags("04 yesterday.mp3", &a, &i, had);
    assert_eq!(kept.album_title, Some(s("X")));
    assert_eq!(kept.album_artist, Some(s("Poppy")));
    assert_eq!(kept.artist, Some(s("Y")));
    assert_eq!(kept.title, Some(s("Z")));
    assert_eq!(kept.year, Some(1999));
    assert_eq!(kept.disc_number, Some(2));
    assert_eq!(kept.track_number, Some(9));
}

#[test]
fn tags_are_set_from_the_album() {
    let a = album("Negative Spaces", "Poppy", &["04 yesterday.mp3"], "/m");
    let i = info("Poppy", "Negative Spaces", Some(2024));
    let had = TrackTags {
        album_title: Some(s("X")),
        album_artist: Some(s("Q")),
        artist: None,
        title: Some(s("Z")),
        year: Some(1999),
        disc_number: None,
        track_number: Some(9),
    };
    let set = set_tags("04 yesterday.mp3", &a, &i, had);
    assert_eq!(set.album_title, Some(s("Negative Spaces")));
    assert_eq!(set.album_artist, Some(s("Q")));
    assert_eq!(set.artist, None);
    assert_eq!(set.title, Some(s("yesterday")));
    assert_eq!(set.year, Some(2024));
    assert_eq!(set.track_number, Some(9));
    let bare = set_tags("nodot", &a, &info("P", "N", None), no_tags());
    assert_eq!(bare.title, None);
    assert_eq!(bare.year, None);
    assert_eq!(bare.album_artist, Some(s("P")));
}

#[test]
fn new_tags_follow_the_format() {
    assert_eq!(get_tag(&album("T", "A", &["1.mp3"], "/m")), Ok(TagKind::Id3v2));
    assert_eq!(get_tag(&album("T", "A", &["1.flac"], "/m")), Ok(TagKind::Flac));
    assert_eq!(get_tag(&album("T", "A", &["1.wav"], "/m")), Err(TagError::NoTagFor(FileType::Wav)));
    assert_eq!(get_tag(&album("T", "A", &["1.wav", "2.mp3"], "/m")), Err(TagError::UnknownFileType));
}

#[test]
fn the_cache_answers_unless_it_asks_anew() {
    let a = album("Choke", "Poppy", &[], "/m");
    let mut cache = MusicInfoCache::new();
    assert!(cache.refresh);
    cache.insert(a.key(), info("Poppy", "Choke", Some(2019)));
    assert!(cache.get_album_info(&a).is_none());
    cache.refresh = false;
    assert_eq!(cache.get_album_info(&a).unwrap().year, Some(2019));
    cache.insert(a.key(), info("Poppy", "Choke", Some(2020)));
    cache.insert(s("other"), info("X", "Y", None));
    assert_eq!(cache.cache.len(), 2);
    assert_eq!(cache.get_album_info(&a).unwrap().year, Some(2020));
    assert!(cache.get_album_info(&album("Nope", "Poppy", &[], "/m")).is_none());
    assert!(MusicInfoCache::must_wait(1));
    assert!(MusicInfoCache::must_wait(0));
    assert!(!MusicInfoCache::must_wait(2));
}

#[test]
fn the_nearest_title_wins() {
    let a = album("Choke", "Poppy", &[], "/m");
    assert_eq!(search_title(&a), "Poppy - Choke");
    let results = vec![result(None), result(Some("Poppy - Chokes")), result(Some("Poppy - Choke")), result(Some("Poppy - Choke"))];
    assert_eq!(best_result("Poppy - Choke", &results), Some(2));
    let ties = vec![result(Some("kitten")), result(Some("sittin")), result(Some("sitting!"))];
    assert_eq!(best_result("sitting", &ties), Some(1));
    assert_eq!(best_result("x", &vec![result(None)]), None);
    assert_eq!(best_result("x", &vec![]), None);
    assert_eq!(best_result("é", &vec![result(Some("ee")), result(Some("e"))]), Some(1));
}

#[test]
fn results_are_read_from_the_answer() {
    let text = "{\"results\":[{\"title\":\"Poppy (2) - Choke - EP\",\"year\":\"2019\",\"cover_image\":\"http://x/y.jpg\"},{\"year\":2019,\"cover_image\":3}]}";
    let results = parse_results(text).unwrap();
    assert_eq!(results.len(), 2);
    assert!(results[0].has_title);
    assert_eq!(results[0].title, "Poppy (2) - Choke - EP");
    assert_eq!(results[0].year, Some(s("2019")));
    assert!(results[0].has_cover);
    assert_eq!(results[0].cover_image, Some(s("http://x/y.jpg")));
    assert!(!results[1].has_title);
    assert_eq!(results[1].year, None);
    assert!(results[1].has_cover);
    assert_eq!(results[1].cover_image, None);
    let first = album_info_from_result(&results[0]).unwrap();
    assert_eq!(first.artist, "Poppy");
    assert_eq!(first.title, "Choke - EP");
    assert_eq!(first.year, Some(2019));
    assert_eq!(album_info_from_result(&results[1]).err(), Some(InfoError::NoArtist));
    assert!(parse_results("not json").is_none());
    assert_eq!(parse_results("{}").unwrap().len(), 0);
}

#[test]
fn numbering_is_dropped_in_order() {
    let with = |title: &str, year: Option<&str>| SearchResult {
        has_title: true,
        title: s(title),
        year: year.map(s),
        has_cover: false,
        cover_image: None,
    };
    assert_eq!(album_info_from_result(&with("A (3) (2) - T", Some("-12"))).unwrap().artist, "A");
    assert_eq!(album_info_from_result(&with("A (2) (3) - T", None)).unwrap().artist, "A (2)");
    assert_eq!(album_info_from_result(&with("A (99) (99) - T", None)).unwrap().artist, "A");
    assert_eq!(album_info_from_result(&with("A (100) - T", None)).unwrap().artist, "A (100)");
    assert_eq!(album_info_from_result(&with("A (1) - T", None)).unwrap().artist, "A (1)");
    assert_eq!(album_info_from_result(&with("A - T", Some("-12"))).unwrap().year, Some(-12));
    assert_eq!(album_info_from_result(&with("A - T", Some("2147483648"))).unwrap().year, None);
    assert_eq!(album_info_from_result(&with("A - T", Some("-2147483648"))).unwrap().year, Some(i32::MIN));
    assert_eq!(album_info_from_result(&with("A - T", Some("19a"))).unwrap().year, None);
    assert_eq!(album_info_from_result(&with("A - T", Some("+7"))).unwrap().year, Some(7));
    assert_eq!(album_info_from_result(&with("A - T", Some(""))).unwrap().year, None);
}

#[test]
fn the_cover_goes_into_the_album_directory() {
    let a = album("T", "A", &[], "/m/A/T");
    assert_eq!(cover_path(&a, "http://x/y/cover.large.png"), Some(s("/m/A/T/cover.png")));
    assert_eq!(cover_path(&a, "nodot"), None);
}

#[test]
fn findings_about_albums() {
    assert_eq!(album_issue(&album("T", "A", &[], "/m")), Some(Finding::NoTracks));
    assert_eq!(album_issue(&album("T", "A", &["1.mp3", "2.wav"], "/m")), Some(Finding::MixedTypes));
    assert_eq!(album_issue(&album("T", "A", &["1.mp3"], "/m")), None);
    let numbered = TrackInfo { title: s("04 yesterday"), disc_number: None, track_number: Some(4) };
    assert!(title_starts_with_number(&numbered));
    let plain = TrackInfo { title: s("yesterday"), disc_number: None, track_number: Some(4) };
    assert!(!title_starts_with_number(&plain));
    let none = TrackInfo { title: s("4 yesterday"), disc_number: None, track_number: None };
    assert!(!title_starts_with_number(&none));
    let a = album("T", "A", &["1.mp3"], "/m/A/T/sub");
    let b = album("U", "A", &["1.mp3"], "/m/A/T");
    let c = album("U", "A", &["1.mp3"], "/m/A/Tx");
    assert!(is_nested_in(&a, &b));
    assert!(!is_nested_in(&b, &a));
    assert!(!is_nested_in(&c, &b));
    assert!(is_duplicate(&a, &b));
    assert!(!is_duplicate(&b, &c));
    assert!(!is_duplicate(&album("T", "A", &[], "/m"), &album("U", "A", &[], "/n")));
    assert_eq!(is_nested_too_deeply(&a, "/m"), Some(true));
    assert_eq!(is_nested_too_deeply(&b, "/m"), Some(false));
    assert_eq!(is_nested_too_deeply(&album("T", "A", &[], "rel/x"), "/m"), None);
    assert_eq!(is_nested_too_deeply(&album("T", "A", &[], "/m/a"), "/m/x/y"), Some(true));
    assert_eq!(is_nested_too_deeply(&album("T", "A", &[], "/m/a"), "/m/x"), Some(false));
    assert_eq!(is_nested_too_deeply(&album("T", "A", &[], "/m"), "/m"), Some(false));
    assert_eq!(is_nested_too_deeply(&album("T", "A", &[], "/a/b"), "rel"), Some(true));
}

#[test]
fn what_the_file_name_says_fills_the_gaps() {
    let said = TrackInfo { title: s("t"), disc_number: Some(2), track_number: None };
    let filled = fill_missing_tags(&info("A", "B", Some(1)), said, no_tags());
    assert_eq!(filled.title, Some(s("t")));
    assert_eq!(filled.disc_number, Some(2));
    assert_eq!(filled.track_number, None);
    assert_eq!(filled.album_title, Some(s("B")));
    assert_eq!(filled.year, None);
}
