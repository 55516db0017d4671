//! What a pass leaves behind when every operation of its plan has done its
//! work, and that a second pass over that state plans no operation.

use crate::album::{
    all_of_type, each_once, lemma_one_type_per_track, lemma_union_holds_both, type_of, AlbumView,
};
use crate::catalog::{
    entry_for, index_wf, lemma_entry_position, lemma_put_is_found, lemma_put_keeps_others, lookup,
    with_album, EntryView,
};
use crate::file_type::FileType;
use crate::location::{
    complete, cover_name, cover_names, lemma_complete_needs_nothing, lemma_cover_name_slash_free,
    lemma_full_copy_is_complete, written_covers, FileOpView, Location,
};
use crate::paths::{joined_path, lemma_file_name_of_joined};
use crate::order::{lemma_sorted_union, sorted_union};
use crate::sync::{
    addition_plan, album_key, best_copy, existing_plan, first_available, keyed_before,
    lemma_best_copy_fits, lemma_existing_plans, lossless_entry, missing_plans, pass_plans,
    represented_at, satisfied_at,
};
use vstd::prelude::*;

verus! {

/// The album as a location holds it once the full copy of `copy` is done:
/// found again as the same release, with the tracks of the copy and the
/// cover files as they were written.
pub open spec fn brought<L: Location>(loc: &L, copy: AlbumView) -> AlbumView {
    AlbumView {
        title: copy.title,
        artist: copy.artist,
        tracks: copy.tracks,
        dir_path: loc.target_of(copy),
        cover_files: written_covers(loc.on_device(), loc.target_of(copy), copy.cover_files),
        parsed_title: copy.parsed_title,
        parsed_artist: copy.parsed_artist,
    }
}

/// The album `a` once it has been completed from `copy`: it holds the
/// tracks of both, and its cover files and those that were written.
pub open spec fn completed(device: bool, a: AlbumView, copy: AlbumView) -> AlbumView {
    AlbumView {
        title: a.title,
        artist: a.artist,
        tracks: sorted_union(a.tracks, copy.tracks),
        dir_path: a.dir_path,
        cover_files: each_once(
            a.cover_files + written_covers(device, a.dir_path, copy.cover_files),
        ),
        parsed_title: a.parsed_title,
        parsed_artist: a.parsed_artist,
    }
}

/// The album at index `i` of the destination is of the release and has the
/// wanted format, or has another and no album of the release has the
/// wanted one: the pass brings the best copy to it.
pub open spec fn wants_copy(dest: Seq<AlbumView>, i: int, key: Seq<char>, wanted: FileType) -> bool {
    &&& 0 <= i < dest.len()
    &&& album_key(dest[i]) == key
    &&& type_of(dest[i].tracks) matches Some(has) && (has == wanted || !satisfied_at(
        dest,
        key,
        wanted,
    ))
}

/// The pass makes use of the best copy of the release: the destination
/// lacks the release, or one of its albums is completed or replaced.
pub open spec fn uses_copy(dest: Seq<AlbumView>, key: Seq<char>, wanted: FileType) -> bool {
    !represented_at(dest, key) || exists|i: int| #[trigger] wants_copy(dest, i, key, wanted)
}

/// The pass converts an album of the release: the sources do not hold the
/// release in the wanted format, a copy can be had, and the pass makes use
/// of it.
pub open spec fn converts(
    dest: Seq<AlbumView>,
    index: Seq<EntryView>,
    key: Seq<char>,
    wanted: FileType,
) -> bool {
    lookup(index, key, wanted).is_none() && best_copy(index, key, wanted).is_some() && uses_copy(
        dest,
        key,
        wanted,
    )
}

/// The source root below which the conversion of a release is written.
pub open spec fn conversion_root(index: Seq<EntryView>, key: Seq<char>) -> Seq<char> {
    match lossless_entry(index, key) {
        Some(e) => e.root,
        None => Seq::empty(),
    }
}

/// What the sources hold once the conversions of a pass are done, for the
/// releases of the first `n` entries of the index: each converted album is
/// put into the index.
pub open spec fn index_after(
    dest: Seq<AlbumView>,
    index: Seq<EntryView>,
    wanted: FileType,
    n: int,
) -> Seq<EntryView>
    decreases n,
{
    if n <= 0 || n > index.len() {
        index
    } else {
        let before = index_after(dest, index, wanted, n - 1);
        let key = index[n - 1].key;
        if converts(dest, index, key, wanted) {
            with_album(
                before,
                best_copy(index, key, wanted)->0.album,
                conversion_root(index, key),
            )
        } else {
            before
        }
    }
}

/// Putting an album into the index changes nothing of what is found under
/// another key or format.
pub proof fn lemma_put_keeps_lookup(
    entries: Seq<EntryView>,
    album: AlbumView,
    root: Seq<char>,
    key: Seq<char>,
    ft: FileType,
)
    requires
        type_of(album.tracks) matches Some(has) && !(key == album_key(album) && ft == has),
    ensures
        lookup(with_album(entries, album, root), key, ft) == lookup(entries, key, ft),
{
    let has = type_of(album.tracks)->0;
    lemma_put_keeps_others(entries, album, root, key, ft, 0);
    lemma_entry_position(entries, key, ft, 0);
    lemma_entry_position(entries, album_key(album), has, 0);
}

/// An album that was put into the index is found under its key and format.
pub proof fn lemma_put_is_looked_up(entries: Seq<EntryView>, album: AlbumView, root: Seq<char>)
    requires
        type_of(album.tracks).is_some(),
    ensures
        lookup(with_album(entries, album, root), album_key(album), type_of(album.tracks)->0)
            == Some(entry_for(album, root, type_of(album.tracks)->0)),
{
    lemma_entry_position(entries, album_key(album), type_of(album.tracks)->0, 0);
    lemma_put_is_found(entries, album, root, 0);
}

/// The conversions of a pass change nothing of what the sources hold in
/// another format than the wanted one.
pub proof fn lemma_index_after_others(
    dest: Seq<AlbumView>,
    index: Seq<EntryView>,
    wanted: FileType,
    n: int,
    key: Seq<char>,
    ft: FileType,
)
    requires
        index_wf(index),
        ft != wanted,
    ensures
        lookup(index_after(dest, index, wanted, n), key, ft) == lookup(index, key, ft),
    decreases n,
{
    if 0 < n <= index.len() {
        lemma_index_after_others(dest, index, wanted, n - 1, key, ft);
        let k = index[n - 1].key;
        if converts(dest, index, k, wanted) {
            lemma_best_copy_fits(index, k, wanted);
            lemma_put_keeps_lookup(
                index_after(dest, index, wanted, n - 1),
                best_copy(index, k, wanted)->0.album,
                conversion_root(index, k),
                key,
                ft,
            );
        }
    }
}

/// What the sources hold in the wanted format once the conversions of a
/// pass are done: what they held before; where they held nothing, nothing
/// or the best copy; and the best copy for each release that the pass
/// converts.
pub proof fn lemma_index_after_wanted(
    dest: Seq<AlbumView>,
    index: Seq<EntryView>,
    wanted: FileType,
    n: int,
    key: Seq<char>,
)
    requires
        index_wf(index),
        0 <= n <= index.len(),
    ensures
        lookup(index, key, wanted).is_some() ==> lookup(
            index_after(dest, index, wanted, n),
            key,
            wanted,
        ) == lookup(index, key, wanted),
        lookup(index, key, wanted).is_none() ==> lookup(
            index_after(dest, index, wanted, n),
            key,
            wanted,
        ).is_none() || (converts(dest, index, key, wanted) && (lookup(
            index_after(dest, index, wanted, n),
            key,
            wanted,
        ) matches Some(e) && e.album == best_copy(index, key, wanted)->0.album)),
        converts(dest, index, key, wanted) && keyed_before(index, key, n) ==> (lookup(
            index_after(dest, index, wanted, n),
            key,
            wanted,
        ) matches Some(e) && e.album == best_copy(index, key, wanted)->0.album),
    decreases n,
{
    if n > 0 {
        lemma_index_after_wanted(dest, index, wanted, n - 1, key);
        let before = index_after(dest, index, wanted, n - 1);
        let k = index[n - 1].key;
        if keyed_before(index, key, n) && key != k {
            let j = choose|j: int| 0 <= j < n && j < index.len() && (#[trigger] index[j]).key == key;
            assert(index[j].key == key);
            assert(keyed_before(index, key, n - 1));
        }
        if converts(dest, index, k, wanted) {
            let album = best_copy(index, k, wanted)->0.album;
            lemma_best_copy_fits(index, k, wanted);
            if key == k {
                lemma_put_is_looked_up(before, album, conversion_root(index, k));
            } else {
                lemma_put_keeps_lookup(before, album, conversion_root(index, k), key, wanted);
            }
        } else if keyed_before(index, key, n) && key == k {
        }
    }
}

/// What the sources hold once all conversions of a pass are done.
pub open spec fn sources_after(
    dest: Seq<AlbumView>,
    index: Seq<EntryView>,
    wanted: FileType,
) -> Seq<EntryView> {
    index_after(dest, index, wanted, index.len() as int)
}

/// A release whose best copy is a conversion stands in the index.
pub proof fn lemma_best_copy_is_keyed(index: Seq<EntryView>, key: Seq<char>, wanted: FileType)
    requires
        best_copy(index, key, wanted).is_some(),
    ensures
        keyed_before(index, key, index.len() as int),
{
    lemma_entry_position(index, key, wanted, 0);
    lemma_entry_position(index, key, FileType::Flac, 0);
    lemma_entry_position(index, key, FileType::Wav, 0);
    if lookup(index, key, wanted).is_some() {
        let j = crate::catalog::entry_position(index, key, wanted, 0)->0;
        assert(index[j].key == key);
    } else if lookup(index, key, FileType::Flac).is_some() {
        let j = crate::catalog::entry_position(index, key, FileType::Flac, 0)->0;
        assert(index[j].key == key);
    } else {
        let j = crate::catalog::entry_position(index, key, FileType::Wav, 0)->0;
        assert(index[j].key == key);
    }
}

/// After a pass the sources can give the best copy of a release exactly
/// where they could before, and it is the same album. Where the pass made
/// use of the copy, nothing is left to convert. Where no copy can be had,
/// the first available album of the release is what it was.
pub proof fn lemma_best_copy_after(
    dest: Seq<AlbumView>,
    index: Seq<EntryView>,
    wanted: FileType,
    key: Seq<char>,
)
    requires
        index_wf(index),
    ensures
        best_copy(sources_after(dest, index, wanted), key, wanted).is_some() == best_copy(
            index,
            key,
            wanted,
        ).is_some(),
        best_copy(index, key, wanted).is_some() ==> best_copy(
            sources_after(dest, index, wanted),
            key,
            wanted,
        )->0.album == best_copy(index, key, wanted)->0.album,
        best_copy(index, key, wanted).is_some() && uses_copy(dest, key, wanted) ==> best_copy(
            sources_after(dest, index, wanted),
            key,
            wanted,
        )->0.preparation == Seq::<crate::location::FileOpView>::empty(),
        best_copy(index, key, wanted).is_none() ==> first_available(
            sources_after(dest, index, wanted),
            key,
        ) == first_available(index, key),
{
    let after = sources_after(dest, index, wanted);
    let n = index.len() as int;
    lemma_index_after_wanted(dest, index, wanted, n, key);
    if wanted != FileType::Flac {
        lemma_index_after_others(dest, index, wanted, n, key, FileType::Flac);
    }
    if wanted != FileType::Wav {
        lemma_index_after_others(dest, index, wanted, n, key, FileType::Wav);
    }
    if wanted != FileType::MP3 {
        lemma_index_after_others(dest, index, wanted, n, key, FileType::MP3);
    }
    if wanted != FileType::M4A {
        lemma_index_after_others(dest, index, wanted, n, key, FileType::M4A);
    }
    if best_copy(index, key, wanted).is_some() {
        lemma_best_copy_is_keyed(index, key, wanted);
    }
}

/// Tracks that all have a format give the album that format.
pub proof fn lemma_type_is(tracks: Seq<Seq<char>>, ft: FileType)
    requires
        all_of_type(tracks, ft),
    ensures
        type_of(tracks) == Some(ft),
{
    assert forall|other: FileType| other != ft implies !all_of_type(tracks, other) by {
        if all_of_type(tracks, other) {
            lemma_one_type_per_track(tracks[0], ft, other);
        }
    }
}

/// An album of a format that is completed from a copy of that format has
/// that format.
pub proof fn lemma_completed_type(device: bool, a: AlbumView, copy: AlbumView, ft: FileType)
    requires
        type_of(a.tracks) == Some(ft),
        type_of(copy.tracks) == Some(ft),
    ensures
        type_of(completed(device, a, copy).tracks) == Some(ft),
{
    let u = sorted_union(a.tracks, copy.tracks);
    lemma_sorted_union(a.tracks, copy.tracks);
    assert(a.tracks.contains(a.tracks[0]));
    assert(u.contains(a.tracks[0]));
    assert forall|i: int| 0 <= i < u.len() implies crate::album::track_of_type(
        #[trigger] u[i],
        ft,
    ) by {
        assert(u.contains(u[i]));
        if a.tracks.contains(u[i]) {
            let k = choose|k: int| 0 <= k < a.tracks.len() && a.tracks[k] == u[i];
            assert(crate::album::track_of_type(a.tracks[k], ft));
        } else {
            let k = choose|k: int| 0 <= k < copy.tracks.len() && copy.tracks[k] == u[i];
            assert(crate::album::track_of_type(copy.tracks[k], ft));
        }
    }
    lemma_type_is(u, ft);
}

/// What stands in the place of the album `a` of the destination once the
/// pass is done: `a` completed where it has the wanted format and a copy
/// can be had, the copy where `a` is replaced, `a` itself otherwise.
pub open spec fn left_of<L: Location>(
    loc: &L,
    a: AlbumView,
    dest: Seq<AlbumView>,
    index: Seq<EntryView>,
    wanted: FileType,
) -> AlbumView {
    match type_of(a.tracks) {
        None => a,
        Some(has) => match best_copy(index, album_key(a), wanted) {
            None => a,
            Some(copy) => if has == wanted {
                completed(loc.on_device(), a, copy.album)
            } else if !satisfied_at(dest, album_key(a), wanted) {
                brought(loc, copy.album)
            } else {
                a
            },
        },
    }
}

/// What stands in the place of an album is of the same release, and has
/// the wanted format where the album was completed or replaced and its own
/// format otherwise.
pub proof fn lemma_left_of<L: Location>(
    loc: &L,
    a: AlbumView,
    dest: Seq<AlbumView>,
    index: Seq<EntryView>,
    wanted: FileType,
)
    requires
        index_wf(index),
    ensures
        album_key(left_of(loc, a, dest, index, wanted)) == album_key(a),
        type_of(a.tracks) == Some(wanted) ==> type_of(left_of(loc, a, dest, index, wanted).tracks)
            == Some(wanted),
        left_of(loc, a, dest, index, wanted) != a ==> type_of(
            left_of(loc, a, dest, index, wanted).tracks,
        ) == Some(wanted),
{
    let key = album_key(a);
    lemma_best_copy_fits(index, key, wanted);
    match type_of(a.tracks) {
        None => {},
        Some(has) => match best_copy(index, key, wanted) {
            None => {},
            Some(copy) => {
                if has == wanted {
                    lemma_completed_type(loc.on_device(), a, copy.album, wanted);
                }
            },
        },
    }
}

/// An album that was completed from a copy lacks nothing of the copy.
pub proof fn lemma_completed_is_complete(device: bool, a: AlbumView, copy: AlbumView)
    ensures
        complete(device, copy, completed(device, a, copy)),
{
    let x = completed(device, a, copy);
    lemma_sorted_union(a.tracks, copy.tracks);
    assert forall|i: int| 0 <= i < copy.tracks.len() implies x.tracks.contains(
        #[trigger] copy.tracks[i],
    ) by {
        assert(copy.tracks.contains(copy.tracks[i]));
    }
    let written = written_covers(device, a.dir_path, copy.cover_files);
    let both = a.cover_files + written;
    let names = cover_names(false, x.cover_files);
    assert forall|i: int| 0 <= i < copy.cover_files.len() implies names.contains(
        cover_name(device, #[trigger] copy.cover_files[i]),
    ) by {
        let name = cover_name(device, copy.cover_files[i]);
        let path = joined_path(a.dir_path, name);
        assert(written[i] == path);
        assert(both[a.cover_files.len() + i] == path);
        assert(both.contains(path));
        lemma_union_holds_both(Seq::empty(), both, path);
        let p = choose|p: int| 0 <= p < x.cover_files.len() && x.cover_files[p] == path;
        lemma_cover_name_slash_free(device, copy.cover_files[i]);
        lemma_file_name_of_joined(a.dir_path, name);
        assert(names[p] == name);
    }
}

/// The albums that stand in the places of the albums of the destination
/// once the pass is done.
pub open spec fn kept_after<L: Location>(
    loc: &L,
    dest: Seq<AlbumView>,
    index: Seq<EntryView>,
    wanted: FileType,
) -> Seq<AlbumView> {
    Seq::new(dest.len(), |i: int| left_of(loc, dest[i], dest, index, wanted))
}

/// The albums that the pass has brought for the releases among the first
/// `n` entries of the index that the destination lacked.
pub open spec fn added_after<L: Location>(
    loc: &L,
    dest: Seq<AlbumView>,
    index: Seq<EntryView>,
    wanted: FileType,
    allow_any: bool,
    n: int,
) -> Seq<AlbumView>
    decreases n,
{
    if n <= 0 || n > index.len() {
        Seq::empty()
    } else {
        let before = added_after(loc, dest, index, wanted, allow_any, n - 1);
        let key = index[n - 1].key;
        if represented_at(dest, key) || keyed_before(index, key, n - 1) {
            before
        } else {
            match arrival(loc, key, index, wanted, allow_any) {
                Some(x) => before.push(x),
                None => before,
            }
        }
    }
}

/// The album that arrives for a release that the destination lacks: the
/// best copy, else, where any format is allowed, the first available
/// album; none where nothing can be brought.
pub open spec fn arrival<L: Location>(
    loc: &L,
    key: Seq<char>,
    index: Seq<EntryView>,
    wanted: FileType,
    allow_any: bool,
) -> Option<AlbumView> {
    match best_copy(index, key, wanted) {
        Some(copy) => Some(brought(loc, copy.album)),
        None => match first_available(index, key) {
            Some(e) => if allow_any {
                Some(brought(loc, e.album))
            } else {
                None
            },
            None => None,
        },
    }
}

/// What the destination holds once the pass is done: what stands in the
/// places of its albums, then what was brought.
pub open spec fn dest_after<L: Location>(
    loc: &L,
    dest: Seq<AlbumView>,
    index: Seq<EntryView>,
    wanted: FileType,
    allow_any: bool,
) -> Seq<AlbumView> {
    kept_after(loc, dest, index, wanted) + added_after(
        loc,
        dest,
        index,
        wanted,
        allow_any,
        index.len() as int,
    )
}

/// The first available album of a release is of that release.
pub proof fn lemma_first_available_fits(index: Seq<EntryView>, key: Seq<char>)
    requires
        index_wf(index),
    ensures
        first_available(index, key) matches Some(e) ==> album_key(e.album) == key && type_of(
            e.album.tracks,
        ) == Some(e.file_type),
{
    lemma_entry_position(index, key, FileType::Flac, 0);
    lemma_entry_position(index, key, FileType::Wav, 0);
    lemma_entry_position(index, key, FileType::MP3, 0);
    lemma_entry_position(index, key, FileType::M4A, 0);
}

/// The album that arrives for a release is found under the key of the
/// release.
pub proof fn lemma_arrival_key<L: Location>(
    loc: &L,
    key: Seq<char>,
    index: Seq<EntryView>,
    wanted: FileType,
    allow_any: bool,
)
    requires
        index_wf(index),
    ensures
        arrival(loc, key, index, wanted, allow_any) matches Some(x) ==> album_key(x) == key,
{
    lemma_best_copy_fits(index, key, wanted);
    lemma_first_available_fits(index, key);
}

/// Each album that was brought is the arrival for its release, which the
/// destination lacked; and for each release among the first `n` entries
/// of the index, the destination held it, or nothing could be brought, or
/// an album was brought for it.
pub proof fn lemma_added_after<L: Location>(
    loc: &L,
    dest: Seq<AlbumView>,
    index: Seq<EntryView>,
    wanted: FileType,
    allow_any: bool,
    n: int,
)
    requires
        index_wf(index),
        0 <= n <= index.len(),
    ensures
        forall|p: int|
            0 <= p < added_after(loc, dest, index, wanted, allow_any, n).len()
                ==> !represented_at(
                dest,
                album_key(#[trigger] added_after(loc, dest, index, wanted, allow_any, n)[p]),
            ) && arrival(
                loc,
                album_key(added_after(loc, dest, index, wanted, allow_any, n)[p]),
                index,
                wanted,
                allow_any,
            ) == Some(added_after(loc, dest, index, wanted, allow_any, n)[p]),
        forall|j: int|
            0 <= j < n ==> represented_at(dest, (#[trigger] index[j]).key) || arrival(
                loc,
                index[j].key,
                index,
                wanted,
                allow_any,
            ).is_none() || represented_at(
                added_after(loc, dest, index, wanted, allow_any, n),
                index[j].key,
            ),
    decreases n,
{
    if n > 0 {
        lemma_added_after(loc, dest, index, wanted, allow_any, n - 1);
        let before = added_after(loc, dest, index, wanted, allow_any, n - 1);
        let now = added_after(loc, dest, index, wanted, allow_any, n);
        let key = index[n - 1].key;
        lemma_arrival_key(loc, key, index, wanted, allow_any);
        assert forall|p: int| 0 <= p < now.len() implies !represented_at(
            dest,
            album_key(#[trigger] now[p]),
        ) && arrival(loc, album_key(now[p]), index, wanted, allow_any) == Some(now[p]) by {
            if p < before.len() {
                assert(now[p] == before[p]);
            }
        }
        assert forall|j: int| 0 <= j < n implies represented_at(dest, (#[trigger] index[j]).key)
            || arrival(loc, index[j].key, index, wanted, allow_any).is_none() || represented_at(
            now,
            index[j].key,
        ) by {
            let k = index[j].key;
            if !represented_at(dest, k) && arrival(loc, k, index, wanted, allow_any).is_some() {
                if j < n - 1 {
                    assert(represented_at(before, k));
                    let p = choose|p: int| 0 <= p < before.len() && album_key(#[trigger] before[p]) == k;
                    assert(album_key(now[p]) == k);
                } else if keyed_before(index, k, n - 1) {
                    let i = choose|i: int|
                        0 <= i < n - 1 && i < index.len() && (#[trigger] index[i]).key == k;
                    assert(represented_at(dest, index[i].key) || arrival(
                        loc,
                        index[i].key,
                        index,
                        wanted,
                        allow_any,
                    ).is_none() || represented_at(before, index[i].key));
                    let p = choose|p: int| 0 <= p < before.len() && album_key(#[trigger] before[p]) == k;
                    assert(album_key(now[p]) == k);
                } else {
                    assert(album_key(now[before.len() as int]) == k);
                }
            }
        }
    }
}

/// A release that the destination held is held by what the pass leaves.
pub proof fn lemma_still_represented<L: Location>(
    loc: &L,
    dest: Seq<AlbumView>,
    index: Seq<EntryView>,
    wanted: FileType,
    allow_any: bool,
    key: Seq<char>,
)
    requires
        index_wf(index),
        represented_at(dest, key),
    ensures
        represented_at(dest_after(loc, dest, index, wanted, allow_any), key),
{
    let w = choose|w: int| 0 <= w < dest.len() && album_key(#[trigger] dest[w]) == key;
    lemma_left_of(loc, dest[w], dest, index, wanted);
    let after = dest_after(loc, dest, index, wanted, allow_any);
    assert(after[w] == left_of(loc, dest[w], dest, index, wanted));
    assert(album_key(after[w]) == key);
}

/// A release that the destination held in the wanted format is held in
/// that format by what the pass leaves.
pub proof fn lemma_still_satisfied<L: Location>(
    loc: &L,
    dest: Seq<AlbumView>,
    index: Seq<EntryView>,
    wanted: FileType,
    allow_any: bool,
    key: Seq<char>,
)
    requires
        index_wf(index),
        satisfied_at(dest, key, wanted),
    ensures
        satisfied_at(dest_after(loc, dest, index, wanted, allow_any), key, wanted),
{
    let w = choose|w: int|
        0 <= w < dest.len() && album_key(#[trigger] dest[w]) == key && type_of(dest[w].tracks)
            == Some(wanted);
    lemma_left_of(loc, dest[w], dest, index, wanted);
    let after = dest_after(loc, dest, index, wanted, allow_any);
    assert(after[w] == left_of(loc, dest[w], dest, index, wanted));
    assert(album_key(after[w]) == key && type_of(after[w].tracks) == Some(wanted));
}

/// Nothing is planned in a second pass for what stands in the place of an
/// album of the destination.
pub proof fn lemma_kept_album_is_settled<L: Location>(
    loc: &L,
    dest: Seq<AlbumView>,
    index: Seq<EntryView>,
    wanted: FileType,
    allow_any: bool,
    i: int,
)
    requires
        index_wf(index),
        0 <= i < dest.len(),
    ensures
        existing_plan(
            loc,
            left_of(loc, dest[i], dest, index, wanted),
            dest_after(loc, dest, index, wanted, allow_any),
            sources_after(dest, index, wanted),
            wanted,
            allow_any,
        ).ops == Seq::<FileOpView>::empty(),
{
    let a = dest[i];
    let key = album_key(a);
    let x = left_of(loc, a, dest, index, wanted);
    lemma_left_of(loc, a, dest, index, wanted);
    lemma_best_copy_after(dest, index, wanted, key);
    lemma_best_copy_fits(index, key, wanted);
    let nothing = Seq::<FileOpView>::empty();
    assert(nothing + nothing =~= nothing);
    match type_of(a.tracks) {
        None => {},
        Some(has) => match best_copy(index, key, wanted) {
            None => {},
            Some(copy) => {
                if has == wanted {
                    assert(wants_copy(dest, i, key, wanted));
                    lemma_completed_is_complete(loc.on_device(), a, copy.album);
                    lemma_complete_needs_nothing(loc.on_device(), copy.album, x);
                } else if !satisfied_at(dest, key, wanted) {
                    assert(wants_copy(dest, i, key, wanted));
                    lemma_full_copy_is_complete(
                        loc.on_device(),
                        loc.target_of(copy.album),
                        copy.album,
                        x,
                    );
                } else {
                    lemma_still_satisfied(loc, dest, index, wanted, allow_any, key);
                }
            },
        },
    }
}

/// Nothing is planned in a second pass for an album that the pass brought.
pub proof fn lemma_added_album_is_settled<L: Location>(
    loc: &L,
    dest: Seq<AlbumView>,
    index: Seq<EntryView>,
    wanted: FileType,
    allow_any: bool,
    p: int,
)
    requires
        index_wf(index),
        0 <= p < added_after(loc, dest, index, wanted, allow_any, index.len() as int).len(),
    ensures
        existing_plan(
            loc,
            added_after(loc, dest, index, wanted, allow_any, index.len() as int)[p],
            dest_after(loc, dest, index, wanted, allow_any),
            sources_after(dest, index, wanted),
            wanted,
            allow_any,
        ).ops == Seq::<FileOpView>::empty(),
{
    let x = added_after(loc, dest, index, wanted, allow_any, index.len() as int)[p];
    let key = album_key(x);
    lemma_added_after(loc, dest, index, wanted, allow_any, index.len() as int);
    lemma_best_copy_after(dest, index, wanted, key);
    lemma_best_copy_fits(index, key, wanted);
    let nothing = Seq::<FileOpView>::empty();
    assert(nothing + nothing =~= nothing);
    match best_copy(index, key, wanted) {
        Some(copy) => {
            lemma_full_copy_is_complete(
                loc.on_device(),
                loc.target_of(copy.album),
                copy.album,
                x,
            );
        },
        None => {},
    }
}

/// Every release that the sources hold after the pass is one that they
/// held before.
pub proof fn lemma_keys_after(
    dest: Seq<AlbumView>,
    index: Seq<EntryView>,
    wanted: FileType,
    n: int,
)
    requires
        index_wf(index),
    ensures
        forall|m: int|
            0 <= m < index_after(dest, index, wanted, n).len() ==> keyed_before(
                index,
                (#[trigger] index_after(dest, index, wanted, n)[m]).key,
                index.len() as int,
            ),
    decreases n,
{
    if 0 < n <= index.len() {
        lemma_keys_after(dest, index, wanted, n - 1);
        let before = index_after(dest, index, wanted, n - 1);
        let now = index_after(dest, index, wanted, n);
        let k = index[n - 1].key;
        assert(keyed_before(index, k, index.len() as int));
        if converts(dest, index, k, wanted) {
            lemma_best_copy_fits(index, k, wanted);
            lemma_entry_position(before, k, wanted, 0);
            assert forall|m: int| 0 <= m < now.len() implies keyed_before(
                index,
                (#[trigger] now[m]).key,
                index.len() as int,
            ) by {
                if m < before.len() && now[m] == before[m] {
                } else {
                    assert(now[m].key == k);
                }
            }
        }
    } else {
        assert forall|m: int| 0 <= m < index.len() implies keyed_before(
            index,
            (#[trigger] index[m]).key,
            index.len() as int,
        ) by {}
    }
}

/// Where each release of the sources is held by the destination or has a
/// plan without an operation, the plans for what the destination lacks
/// hold no operation.
pub proof fn lemma_missing_plans_empty<L: Location>(
    loc: &L,
    dest: Seq<AlbumView>,
    index: Seq<EntryView>,
    wanted: FileType,
    allow_any: bool,
    n: int,
)
    requires
        forall|m: int|
            0 <= m < index.len() ==> represented_at(dest, (#[trigger] index[m]).key)
                || addition_plan(loc, index[m].key, index, wanted, allow_any).ops == Seq::<
                FileOpView,
            >::empty(),
    ensures
        forall|p: int|
            0 <= p < missing_plans(loc, dest, index, wanted, allow_any, n).len() ==> (
            #[trigger] missing_plans(loc, dest, index, wanted, allow_any, n)[p]).ops == Seq::<
                FileOpView,
            >::empty(),
    decreases n,
{
    if 0 < n <= index.len() {
        lemma_missing_plans_empty(loc, dest, index, wanted, allow_any, n - 1);
        let before = missing_plans(loc, dest, index, wanted, allow_any, n - 1);
        let now = missing_plans(loc, dest, index, wanted, allow_any, n);
        assert(represented_at(dest, index[n - 1].key) || addition_plan(
            loc,
            index[n - 1].key,
            index,
            wanted,
            allow_any,
        ).ops == Seq::<FileOpView>::empty());
        assert forall|p: int| 0 <= p < now.len() implies (#[trigger] now[p]).ops == Seq::<
            FileOpView,
        >::empty() by {
            if p < before.len() {
                assert(now[p] == before[p]);
            }
        }
    }
}

/// Once a pass is done and every operation of its plan has done its work,
/// a second pass plans no operation: nothing is removed, nothing copied,
/// nothing converted.
///
/// The state after the first pass is the one that the plan describes. The
/// sources hold each album that was converted. The destination holds, in
/// place of each of its albums, the album completed or the copy that
/// replaced it, and each album that was brought, found again under the key
/// of its release with the tracks and cover files that were written.
pub proof fn lemma_second_pass_does_nothing<L: Location>(
    loc: &L,
    dest: Seq<AlbumView>,
    index: Seq<EntryView>,
    wanted: FileType,
    allow_any: bool,
)
    requires
        index_wf(index),
    ensures
        forall|p: int|
            0 <= p < pass_plans(
                loc,
                dest_after(loc, dest, index, wanted, allow_any),
                sources_after(dest, index, wanted),
                wanted,
                allow_any,
            ).len() ==> (#[trigger] pass_plans(
                loc,
                dest_after(loc, dest, index, wanted, allow_any),
                sources_after(dest, index, wanted),
                wanted,
                allow_any,
            )[p]).ops == Seq::<FileOpView>::empty(),
{
    let dest2 = dest_after(loc, dest, index, wanted, allow_any);
    let index2 = sources_after(dest, index, wanted);
    let kept = kept_after(loc, dest, index, wanted);
    let added = added_after(loc, dest, index, wanted, allow_any, index.len() as int);
    let nothing = Seq::<FileOpView>::empty();
    lemma_existing_plans(loc, dest2, index2, wanted, allow_any, dest2.len() as int);
    lemma_keys_after(dest, index, wanted, index.len() as int);
    lemma_added_after(loc, dest, index, wanted, allow_any, index.len() as int);
    assert forall|m: int| 0 <= m < index2.len() implies represented_at(
        dest2,
        (#[trigger] index2[m]).key,
    ) || addition_plan(loc, index2[m].key, index2, wanted, allow_any).ops == nothing by {
        let k = index2[m].key;
        let j = choose|j: int| 0 <= j < index.len() && j < index.len() && (#[trigger] index[j]).key == k;
        assert(index[j].key == k);
        lemma_best_copy_after(dest, index, wanted, k);
        if represented_at(dest, k) {
            lemma_still_represented(loc, dest, index, wanted, allow_any, k);
        } else if represented_at(added, k) {
            let q = choose|q: int| 0 <= q < added.len() && album_key(#[trigger] added[q]) == k;
            assert(dest2[dest.len() + q] == added[q]);
            assert(album_key(dest2[dest.len() + q]) == k);
        } else {
            assert(arrival(loc, k, index, wanted, allow_any).is_none());
        }
    }
    lemma_missing_plans_empty(loc, dest2, index2, wanted, allow_any, index2.len() as int);
    let first = crate::sync::existing_plans(loc, dest2, index2, wanted, allow_any, dest2.len() as int);
    let second = missing_plans(loc, dest2, index2, wanted, allow_any, index2.len() as int);
    let plans = pass_plans(loc, dest2, index2, wanted, allow_any);
    assert forall|p: int| 0 <= p < plans.len() implies (#[trigger] plans[p]).ops == nothing by {
        if p < first.len() {
            assert(plans[p] == first[p]);
            assert(first[p] == existing_plan(loc, dest2[p], dest2, index2, wanted, allow_any));
            if p < dest.len() {
                assert(dest2[p] == left_of(loc, dest[p], dest, index, wanted));
                lemma_kept_album_is_settled(loc, dest, index, wanted, allow_any, p);
            } else {
                assert(dest2[p] == added[p - dest.len()]);
                lemma_added_album_is_settled(loc, dest, index, wanted, allow_any, p - dest.len());
            }
        } else {
            assert(plans[p] == second[p - first.len()]);
        }
    }
}

} // verus!
