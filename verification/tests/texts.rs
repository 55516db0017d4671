use morg::order::{chars_lt, insert_sorted, str_lt};
use morg::paths::{extension, file_name, join, normalize, parent, split_components};
use morg::tally::most_common_first_seen;
use morg::text::{
    chars_of, decimal_of, eq_ignore_case, find, replace_all, rfind, rsplit_once, split_once, string_of, trim,
};

fn c(text: &str) -> Vec<char> {
    text.chars().collect()
}

fn s(text: &str) -> String {
    text.to_string()
}

#[test]
fn characters_and_strings_convert_both_ways() {
    assert_eq!(chars_of("aé\u{1F600}"), c("aé\u{1F600}"));
    assert_eq!(string_of(&c("aé\u{1F600}")), "aé\u{1F600}");
    assert_eq!(string_of(&Vec::new()), "");
}

#[test]
fn searching_finds_first_and_last() {
    assert_eq!(find(&c("a - b - c"), &c(" - "), 0), Some(1));
    assert_eq!(find(&c("a - b - c"), &c(" - "), 2), Some(5));
    assert_eq!(find(&c("abc"), &c("abcd"), 0), None);
    assert_eq!(find(&c("abc"), &c(""), 3), Some(3));
    assert_eq!(find(&c("abc"), &c("c"), 9), None);
    assert_eq!(rfind(&c("a - b - c"), &c(" - ")), Some(5));
    assert_eq!(rfind(&c("abc"), &c("x")), None);
    assert_eq!(split_once(&c("a - b - c"), &c(" - ")), Some((c("a"), c("b - c"))));
    assert_eq!(rsplit_once(&c("a - b - c"), &c(" - ")), Some((c("a - b"), c("c"))));
    assert_eq!(split_once(&c("abc"), &c(" - ")), None);
}

#[test]
fn replacing_and_trimming() {
    assert_eq!(replace_all(&c("aaa"), &c("aa"), &c("b")), c("ba"));
    assert_eq!(replace_all(&c("x.flac.flac"), &c(".flac"), &c(".mp3")), c("x.mp3.mp3"));
    assert_eq!(replace_all(&c("abc"), &c(""), &c("x")), c("abc"));
    assert_eq!(trim(&c(" \t a b \u{3000}\n")), c("a b"));
    assert_eq!(trim(&c("   ")), c(""));
    assert_eq!(trim(&c("")), c(""));
    assert!(eq_ignore_case(&c("FlAc"), &c("flac")));
    assert!(!eq_ignore_case(&c("flac"), &c("flak")));
    assert!(!eq_ignore_case(&c("[a"), &c("{a")));
    assert_eq!(decimal_of(0), c("0"));
    assert_eq!(decimal_of(1203), c("1203"));
}

#[test]
fn texts_are_ordered_like_strings() {
    let words = ["", "a", "B", "ab", "b", "é", "z", "aa", "\u{1F600}"];
    for x in words {
        for y in words {
            assert_eq!(str_lt(x, y), x < y);
            assert_eq!(chars_lt(&c(x), &c(y)), x < y);
        }
    }
    let mut names: Vec<String> = Vec::new();
    for w in ["m", "a", "z", "m", "b"] {
        insert_sorted(&mut names, s(w));
    }
    assert_eq!(names, vec![s("a"), s("b"), s("m"), s("z")]);
}

#[test]
fn paths_are_taken_apart() {
    assert_eq!(normalize(&c("a\\b/c")), c("a/b/c"));
    assert_eq!(join(&c("/a"), &c("b")), c("/a/b"));
    assert_eq!(join(&c("/a/"), &c("b")), c("/a/b"));
    assert_eq!(join(&c(""), &c("b")), c("b"));
    assert_eq!(join(&c("/a"), &c("/b")), c("/b"));
    assert_eq!(join(&c("/a"), &c("")), c("/a/"));
    assert_eq!(parent(&c("/a/b")), Some(c("/a")));
    assert_eq!(parent(&c("/a")), Some(c("/")));
    assert_eq!(parent(&c("a")), Some(c("")));
    assert_eq!(parent(&c("/")), None);
    assert_eq!(parent(&c("")), None);
    assert_eq!(file_name(&c("/a/b.c")), c("b.c"));
    assert_eq!(file_name(&c("b")), c("b"));
    assert_eq!(extension(&c("/a.b/c")), None);
    assert_eq!(extension(&c("/a/.hidden")), None);
    assert_eq!(extension(&c("/a/x.tar.gz")), Some(c("gz")));
    assert_eq!(extension(&c("x.")), Some(c("")));
    assert_eq!(split_components(&c("/a//./b/../c/")), vec![s("a"), s("b"), s("c")]);
    assert_eq!(split_components(&c("")), Vec::<String>::new());
}

#[test]
fn the_first_of_the_most_frequent_names_wins() {
    let names = |list: &[&str]| -> Vec<String> { list.iter().map(|n| n.to_string()).collect() };
    assert_eq!(most_common_first_seen(&names(&["b", "a", "a", "b", "c"])), Some(s("b")));
    assert_eq!(most_common_first_seen(&names(&["c", "a", "a"])), Some(s("a")));
    assert_eq!(most_common_first_seen(&names(&["x"])), Some(s("x")));
    assert_eq!(most_common_first_seen(&names(&[])), None);
}
