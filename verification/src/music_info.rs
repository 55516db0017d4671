//! What is known about releases from a music database: the answers that
//! are kept, the choice among the results of a search, and what a result
//! says about artist, title and year.

use crate::album::{dash, Album, AlbumView};
use crate::numbers::{i32_of, parse_i32};
use crate::paths::{join, joined_path};
use crate::text::{
    three, append, chars_of, decimal, decimal_of, ends_with, has_suffix, rsplit_once, slice, split_first,
    split_last, split_once, string_of,
};
use vstd::prelude::*;

verus! {

/// What the music database says about a release.
#[derive(Debug)]
pub struct AlbumInfo {
    pub artist: String,
    pub title: String,
    pub year: Option<i32>,
}

/// What the music database says about a release, as plain values.
pub struct AlbumInfoView {
    pub artist: Seq<char>,
    pub title: Seq<char>,
    pub year: Option<i32>,
}

impl View for AlbumInfo {
    type V = AlbumInfoView;

    open spec fn view(&self) -> AlbumInfoView {
        AlbumInfoView { artist: self.artist@, title: self.title@, year: self.year }
    }
}

impl Clone for AlbumInfo {
    fn clone(&self) -> (r: AlbumInfo)
        ensures
            r@ == self@,
    {
        AlbumInfo { artist: self.artist.clone(), title: self.title.clone(), year: self.year }
    }
}

/// One answer that is kept, under the key of its release.
#[derive(Debug)]
pub struct CacheEntry {
    pub key: String,
    pub info: AlbumInfo,
}

/// The answers of the music database that are kept.
#[derive(Debug)]
pub struct MusicInfoCache {
    pub cache: Vec<CacheEntry>,
    pub refresh: bool,
}

/// The index of the first entry at or after `from` with the key.
pub open spec fn cache_position(cache: Seq<CacheEntry>, key: Seq<char>, from: int) -> Option<int>
    decreases cache.len() - from,
{
    if from < 0 || from >= cache.len() {
        None
    } else if cache[from].key@ == key {
        Some(from)
    } else {
        cache_position(cache, key, from + 1)
    }
}

/// The answer kept under the key.
pub open spec fn kept_info(cache: Seq<CacheEntry>, key: Seq<char>) -> Option<AlbumInfoView> {
    match cache_position(cache, key, 0) {
        Some(i) => Some(cache[i].info@),
        None => None,
    }
}

/// The search is to pause before the next request: at most one request is
/// left of the quota.
pub open spec fn quota_spent(remaining: i32) -> bool {
    remaining <= 1
}

/// Replacing the entry at `at`, or adding one at the end, changes what is
/// kept under the key of the new entry and under no other.
pub proof fn lemma_cache_put(
    before: Seq<CacheEntry>,
    after: Seq<CacheEntry>,
    entry: CacheEntry,
    other: Seq<char>,
    from: int,
)
    requires
        0 <= from,
        match cache_position(before, entry.key@, 0) {
            Some(i) => after == before.update(i, entry),
            None => after == before.push(entry),
        },
    ensures
        cache_position(before, entry.key@, 0) matches Some(i) && from <= i ==> cache_position(
            after,
            entry.key@,
            from,
        ) == cache_position(before, entry.key@, from),
        other != entry.key@ ==> cache_position(after, other, from) == cache_position(
            before,
            other,
            from,
        ),
        cache_position(before, entry.key@, 0).is_none() && from <= before.len()
            ==> cache_position(after, entry.key@, from) == Some(before.len() as int),
    decreases after.len() - from,
{
    lemma_cache_position(before, entry.key@, 0);
    if from < after.len() {
        lemma_cache_put(before, after, entry, other, from + 1);
        if from < before.len() {
            lemma_cache_position(before, entry.key@, from);
        }
    }
}

/// Where a key is found from `from` on, the entry there has it, and no
/// entry between `from` and it has.
pub proof fn lemma_cache_position(cache: Seq<CacheEntry>, key: Seq<char>, from: int)
    requires
        0 <= from,
    ensures
        match cache_position(cache, key, from) {
            Some(i) => from <= i < cache.len() && cache[i].key@ == key && forall|j: int|
                from <= j < i ==> (#[trigger] cache[j]).key@ != key,
            None => forall|j: int| from <= j < cache.len() ==> (#[trigger] cache[j]).key@ != key,
        },
    decreases cache.len() - from,
{
    if from < cache.len() && cache[from].key@ != key {
        lemma_cache_position(cache, key, from + 1);
    }
}

impl MusicInfoCache {
    /// A cache that holds nothing and asks anew.
    pub fn new() -> (r: MusicInfoCache)
        ensures
            r.cache@.len() == 0,
            r.refresh,
    {
        MusicInfoCache { cache: Vec::new(), refresh: true }
    }

    /// The position of the entry with the key.
    pub fn position(&self, key: &String) -> (r: Option<usize>)
        ensures
            match r {
                Some(i) => cache_position(self.cache@, key@, 0) == Some(i as int) && i
                    < self.cache.len(),
                None => cache_position(self.cache@, key@, 0).is_none(),
            },
    {
        let mut i: usize = 0;
        while i < self.cache.len()
            invariant
                i <= self.cache.len(),
                cache_position(self.cache@, key@, 0) == cache_position(
                    self.cache@,
                    key@,
                    i as int,
                ),
            decreases self.cache.len() - i,
        {
            if self.cache[i].key == *key {
                return Some(i);
            }
            i += 1;
        }
        None
    }

    /// What is kept about `album`. `None` says that the music database is
    /// to be asked: nothing is kept under the key of the album, or the
    /// cache asks anew.
    pub fn get_album_info(&self, album: &Album) -> (r: Option<AlbumInfo>)
        ensures
            match r {
                Some(info) => !self.refresh && kept_info(
                    self.cache@,
                    crate::sync::album_key(album@),
                ) == Some(info@),
                None => self.refresh || kept_info(
                    self.cache@,
                    crate::sync::album_key(album@),
                ).is_none(),
            },
    {
        if self.refresh {
            return None;
        }
        let key = album.key();
        match self.position(&key) {
            Some(i) => Some(self.cache[i].info.clone()),
            None => None,
        }
    }

    /// Keeps `info` under `key`, in place of what was kept under it.
    pub fn insert(&mut self, key: String, info: AlbumInfo)
        ensures
            final(self).refresh == old(self).refresh,
            kept_info(final(self).cache@, key@) == Some(info@),
            forall|other: Seq<char>|
                other != key@ ==> #[trigger] kept_info(final(self).cache@, other) == kept_info(
                    old(self).cache@,
                    other,
                ),
    {
        let ghost before = self.cache@;
        let found = self.position(&key);
        let entry = CacheEntry { key: key, info: info };
        match found {
            Some(i) => {
                self.cache.set(i, entry);
            },
            None => {
                self.cache.push(entry);
            },
        }
        proof {
            let after = self.cache@;
            lemma_cache_position(before, entry.key@, 0);
            lemma_cache_put(before, after, entry, entry.key@, 0);
            assert forall|other: Seq<char>| other != entry.key@ implies #[trigger] kept_info(
                after,
                other,
            ) == kept_info(before, other) by {
                lemma_cache_put(before, after, entry, other, 0);
                lemma_cache_position(before, other, 0);
            }
        }
    }

    /// Tells whether the search is to pause before the next request, given
    /// the number of requests that the music database says are left.
    pub fn must_wait(remaining: i32) -> (r: bool)
        ensures
            r == quota_spent(remaining),
    {
        remaining <= 1
    }
}

/// One result of a search in the music database, as far as it is read.
/// `title` is the text of the field of that name, `year` and `cover_image`
/// are there where the fields hold text.
#[derive(Debug)]
pub struct SearchResult {
    pub has_title: bool,
    pub title: String,
    pub year: Option<String>,
    pub has_cover: bool,
    pub cover_image: Option<String>,
}

/// A text that may be there, as plain values.
pub open spec fn text_of(t: Option<String>) -> Option<Seq<char>> {
    match t {
        Some(s) => Some(s@),
        None => None,
    }
}

/// A result of a search as plain values.
pub struct SearchResultView {
    pub has_title: bool,
    pub title: Seq<char>,
    pub year: Option<Seq<char>>,
    pub has_cover: bool,
    pub cover_image: Option<Seq<char>>,
}

impl View for SearchResult {
    type V = SearchResultView;

    open spec fn view(&self) -> SearchResultView {
        SearchResultView {
            has_title: self.has_title,
            title: self.title@,
            year: text_of(self.year),
            has_cover: self.has_cover,
            cover_image: text_of(self.cover_image),
        }
    }
}

impl DeepView for SearchResult {
    type V = SearchResultView;

    open spec fn deep_view(&self) -> SearchResultView {
        self@
    }
}

/// What the `json` crate reads out of the answer to a search: the members
/// of its field `results`, or nothing where the answer is no JSON text.
pub uninterp spec fn search_results(content: Seq<char>) -> Option<Seq<SearchResultView>>;

/// Parses the answer to a search with `json::parse` and reads, for each
/// member of its field `results`, the fields `title`, `year` and
/// `cover_image` with the methods of `json::JsonValue`. The contract only
/// gives what comes out its name.
#[verifier::external_body]
pub(crate) fn read_results(content: &str) -> (r: Option<Vec<SearchResult>>)
    ensures
        match r {
            Some(v) => search_results(content@) == Some(v.deep_view()),
            None => search_results(content@).is_none(),
        },
{
    let parsed = json::parse(content).ok()?;
    let read = |m: &json::JsonValue| SearchResult {
        has_title: m.has_key("title"),
        title: m["title"].to_string(),
        year: m["year"].as_str().map(String::from),
        has_cover: m.has_key("cover_image"),
        cover_image: m["cover_image"].as_str().map(String::from),
    };
    Some(parsed["results"].members().map(read).collect())
}

/// The results of a search, read from the text of the answer.
pub fn parse_results(content: &str) -> (r: Option<Vec<SearchResult>>)
    ensures
        match r {
            Some(v) => search_results(content@) == Some(v.deep_view()),
            None => search_results(content@).is_none(),
        },
{
    read_results(content)
}

/// The least of three numbers.
pub open spec fn least(a: nat, b: nat, c: nat) -> nat {
    if a <= b && a <= c {
        a
    } else if b <= c {
        b
    } else {
        c
    }
}

/// The Levenshtein distance of two texts: the least number of characters
/// to insert, to delete or to replace that turns one into the other.
pub open spec fn edit_distance(s: Seq<char>, t: Seq<char>) -> nat
    decreases s.len() + t.len(),
{
    if s.len() == 0 {
        t.len()
    } else if t.len() == 0 {
        s.len()
    } else {
        least(
            edit_distance(s.drop_last(), t) + 1,
            edit_distance(s, t.drop_last()) + 1,
            edit_distance(s.drop_last(), t.drop_last()) + if s.last() == t.last() {
                0nat
            } else {
                1nat
            },
        )
    }
}

/// Calls `distance::levenshtein`, which the crate documents as the
/// Levenshtein distance of the two texts, counted in characters.
#[verifier::external_body]
pub(crate) fn levenshtein(s: &str, t: &str) -> (d: usize)
    ensures
        d == edit_distance(s@, t@),
{
    distance::levenshtein(s, t)
}

/// The text that is searched for: artist, ` - `, title.
pub open spec fn search_text(album: AlbumView) -> Seq<char> {
    album.artist + dash() + album.title
}

/// `i` is the first result with a title whose distance from `wanted` no
/// other result with a title falls below.
pub open spec fn closest_result(results: Seq<SearchResultView>, wanted: Seq<char>, i: int) -> bool {
    &&& 0 <= i < results.len()
    &&& results[i].has_title
    &&& forall|j: int|
        0 <= j < results.len() && (#[trigger] results[j]).has_title ==> edit_distance(
            wanted,
            results[i].title,
        ) <= edit_distance(wanted, results[j].title)
    &&& forall|j: int|
        0 <= j < i && (#[trigger] results[j]).has_title ==> edit_distance(
            wanted,
            results[i].title,
        ) < edit_distance(wanted, results[j].title)
}

/// The text that is searched for.
pub fn search_title(album: &Album) -> (r: String)
    ensures
        r@ == search_text(album@),
{
    let mut out = chars_of(album.artist.as_str());
    append(&mut out, &three(' ', '-', ' '));
    append(&mut out, &chars_of(album.title.as_str()));
    string_of(&out)
}

/// The result that matches `search_title` best: among the results with a
/// title, the first whose title is nearest to it. `None` where no result
/// has a title.
pub fn best_result(search_title: &str, results: &Vec<SearchResult>) -> (r: Option<usize>)
    ensures
        match r {
            Some(i) => closest_result(results.deep_view(), search_title@, i as int),
            None => forall|j: int|
                0 <= j < results.len() ==> !(#[trigger] results.deep_view()[j]).has_title,
        },
{
    let ghost all = results.deep_view();
    let mut best: Option<usize> = None;
    let mut score: usize = 0;
    let mut i: usize = 0;
    while i < results.len()
        invariant
            i <= results.len(),
            all == results.deep_view(),
            match best {
                Some(b) => b < i && all[b as int].has_title && score == edit_distance(
                    search_title@,
                    all[b as int].title,
                ) && (forall|j: int|
                    0 <= j < i && (#[trigger] all[j]).has_title ==> score <= edit_distance(
                        search_title@,
                        all[j].title,
                    )) && (forall|j: int|
                    0 <= j < b && (#[trigger] all[j]).has_title ==> score < edit_distance(
                        search_title@,
                        all[j].title,
                    )),
                None => forall|j: int| 0 <= j < i ==> !(#[trigger] all[j]).has_title,
            },
        decreases results.len() - i,
    {
        assert(all[i as int] == results[i as int]@);
        if results[i].has_title {
            let d = levenshtein(search_title, results[i].title.as_str());
            match best {
                Some(b) => {
                    if d < score {
                        best = Some(i);
                        score = d;
                    }
                },
                None => {
                    best = Some(i);
                    score = d;
                },
            }
        }
        i += 1;
    }
    best
}

/// `s` without `pat` at its end, as often as it stands there.
pub open spec fn stripped_end(s: Seq<char>, pat: Seq<char>) -> Seq<char>
    decreases s.len(),
{
    if pat.len() > 0 && has_suffix(s, pat) {
        stripped_end(s.subrange(0, s.len() - pat.len()), pat)
    } else {
        s
    }
}

/// The mark that sets artists of one name apart: a blank and the number
/// in round brackets.
pub open spec fn numbering(i: nat) -> Seq<char> {
    seq![' ', '('] + decimal(i) + seq![')']
}

/// `s` with the marks for the numbers from 2 up to, but not including,
/// `upto` dropped from its end, one number after the other.
pub open spec fn without_numbering(s: Seq<char>, upto: nat) -> Seq<char>
    decreases upto,
{
    if upto <= 2 {
        s
    } else {
        stripped_end(without_numbering(s, (upto - 1) as nat), numbering((upto - 1) as nat))
    }
}

/// Why a result tells nothing about a release.
#[derive(Clone, Copy, Debug, PartialEq, Eq, Structural)]
pub enum InfoError {
    /// The title of the result is not of the form `artist - title`.
    NoArtist,
}

/// What a result says about a release. Its title is split at the first
/// ` - ` into artist and title; the artist loses the marks `(2)` to `(99)`
/// at its end; the year is read where it is there and is a number.
pub open spec fn info_of(result: SearchResultView) -> Result<AlbumInfoView, InfoError> {
    match split_first(result.title, dash()) {
        None => Err(InfoError::NoArtist),
        Some((artist, title)) => Ok(
            AlbumInfoView {
                artist: without_numbering(artist, 100),
                title: title,
                year: match result.year {
                    Some(y) => i32_of(y),
                    None => None,
                },
            },
        ),
    }
}

/// Drops `pat` from the end of `s` as often as it stands there.
pub fn strip_end(s: Vec<char>, pat: &Vec<char>) -> (r: Vec<char>)
    ensures
        r@ == stripped_end(s@, pat@),
{
    let mut end: usize = s.len();
    if pat.len() == 0 {
        return s;
    }
    assert(s@.subrange(0, end as int) =~= s@);
    loop
        invariant
            end <= s.len(),
            pat.len() > 0,
            stripped_end(s@, pat@) == stripped_end(s@.subrange(0, end as int), pat@),
        decreases end,
    {
        let head = slice(&s, 0, end);
        if !ends_with(&head, pat) {
            return head;
        }
        assert(head@.subrange(0, head@.len() - pat@.len()) =~= s@.subrange(
            0,
            end - pat@.len(),
        ));
        end = end - pat.len();
    }
}

/// What a result says about a release.
pub fn album_info_from_result(result: &SearchResult) -> (r: Result<AlbumInfo, InfoError>)
    ensures
        match r {
            Ok(info) => info_of(result@) == Ok::<AlbumInfoView, InfoError>(info@),
            Err(e) => info_of(result@) == Err::<AlbumInfoView, InfoError>(e),
        },
{
    let text = chars_of(result.title.as_str());
    match split_once(&text, &three(' ', '-', ' ')) {
        None => Err(InfoError::NoArtist),
        Some((artist, title)) => {
            let mut name = artist;
            let mut i: usize = 2;
            while i < 100
                invariant
                    2 <= i <= 100,
                    name@ == without_numbering(artist@, i as nat),
                decreases 100 - i,
            {
                let mut mark: Vec<char> = Vec::new();
                mark.push(' ');
                mark.push('(');
                append(&mut mark, &decimal_of(i));
                mark.push(')');
                assert(mark@ =~= numbering(i as nat));
                name = strip_end(name, &mark);
                i += 1;
            }
            let year = match &result.year {
                Some(y) => parse_i32(&chars_of(y.as_str())),
                None => None,
            };
            Ok(AlbumInfo { artist: string_of(&name), title: string_of(&title), year: year })
        },
    }
}

/// Where the cover file of an album goes: into its directory, under the
/// name `cover` with the extension of the address it comes from.
pub open spec fn cover_target(album: AlbumView, url: Seq<char>) -> Option<Seq<char>> {
    match split_last(url, seq!['.']) {
        Some((_, ext)) => Some(joined_path(album.dir_path, seq!['c', 'o', 'v', 'e', 'r', '.'] + ext)),
        None => None,
    }
}

/// Where the cover file that comes from `cover_url` goes. `None` where
/// the address has no extension.
pub fn cover_path(album: &Album, cover_url: &str) -> (r: Option<String>)
    ensures
        text_of(r) == cover_target(album@, cover_url@),
{
    let url = chars_of(cover_url);
    let mut dot: Vec<char> = Vec::new();
    dot.push('.');
    assert(dot@ =~= seq!['.']);
    match rsplit_once(&url, &dot) {
        None => None,
        Some((_, ext)) => {
            let mut name = three('c', 'o', 'v');
            name.push('e');
            name.push('r');
            name.push('.');
            assert(name@ =~= seq!['c', 'o', 'v', 'e', 'r', '.']);
            append(&mut name, &ext);
            let dir = chars_of(album.dir_path.as_str());
            Some(string_of(&join(&dir, &name)))
        },
    }
}

} // verus!
