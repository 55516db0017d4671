//! The reconciliation of one destination with the sources: for each album
//! that the destination holds and for each that it lacks, what is decided
//! and which file operations follow.

use crate::album::{key_of, type_of, Album, AlbumView};
use crate::catalog::{
    index_wf, lemma_entry_position, lemma_put_is_found, lookup, with_album, EntryView,
    SourceIndex,
};
use crate::convert::{
    conversion_of, convert_src_album, lemma_conversion_has_wanted_format,
};
use crate::file_type::{lossless, FileType};
use crate::location::{
    backfill_ops, complete, full_copy_ops, lemma_complete_needs_nothing,
    lemma_full_copy_is_complete, remove_dir, written_covers, FileOp, FileOpView, Location,
};
use crate::order::holds;
use vstd::prelude::*;

verus! {

/// A copy of an album in the wanted format: the album, and the operations
/// that make it where it has to be converted first.
#[derive(Debug)]
pub struct SourceCopy {
    pub album: Album,
    pub preparation: Vec<FileOp>,
}

/// A source copy as plain values.
pub struct SourceCopyView {
    pub album: AlbumView,
    pub preparation: Seq<FileOpView>,
}

impl View for SourceCopy {
    type V = SourceCopyView;

    open spec fn view(&self) -> SourceCopyView {
        SourceCopyView { album: self.album@, preparation: self.preparation.deep_view() }
    }
}

/// The lossless entry of a release that a conversion starts from: the FLAC
/// one, else the WAV one.
pub open spec fn lossless_entry(index: Seq<EntryView>, key: Seq<char>) -> Option<EntryView> {
    match lookup(index, key, FileType::Flac) {
        Some(e) => Some(e),
        None => lookup(index, key, FileType::Wav),
    }
}

/// The best copy of a release that the sources can give in the format
/// `dest`: the album that they hold in that format; else, where `dest` is
/// lossy and they hold a lossless album, its conversion; else none.
pub open spec fn best_copy(index: Seq<EntryView>, key: Seq<char>, dest: FileType) -> Option<
    SourceCopyView,
> {
    match lookup(index, key, dest) {
        Some(e) => Some(SourceCopyView { album: e.album, preparation: Seq::empty() }),
        None => if lossless(dest) {
            None
        } else {
            match lossless_entry(index, key) {
                None => None,
                Some(e) => match conversion_of(e.album, e.root, dest) {
                    Ok(c) => Some(SourceCopyView { album: c.album, preparation: c.ops }),
                    Err(_) => None,
                },
            }
        },
    }
}

/// The first entry of a release in the order in which formats are
/// preferred: FLAC, WAV, MP3, M4A.
pub open spec fn first_available(index: Seq<EntryView>, key: Seq<char>) -> Option<EntryView> {
    match lookup(index, key, FileType::Flac) {
        Some(e) => Some(e),
        None => match lookup(index, key, FileType::Wav) {
            Some(e) => Some(e),
            None => match lookup(index, key, FileType::MP3) {
                Some(e) => Some(e),
                None => lookup(index, key, FileType::M4A),
            },
        },
    }
}

/// What is decided for one album.
#[derive(Clone, Copy, Debug, PartialEq, Eq, Structural)]
pub enum Decision {
    /// The album has the wanted format: what it lacks is copied.
    Backfill,
    /// The album has the wanted format and the sources hold no copy of it.
    Keep,
    /// The album has another format: it is removed and the copy brought.
    Replace,
    /// The album has another format, no copy can be had, and any format is
    /// allowed: it stays.
    Accept,
    /// The album stays as it is, and the fact is reported.
    Untouched,
    /// The tracks of the album share no format, which is reported.
    UnknownType,
    /// The destination lacks the album: the copy is brought.
    Add,
    /// The destination lacks the album and no copy in the wanted format can
    /// be had: the album is brought in the format named.
    AddFallback(FileType),
    /// The destination lacks the album and nothing can be brought, which is
    /// reported.
    NoSuitableSource,
}

/// The plan for one album.
#[derive(Debug)]
pub struct AlbumPlan {
    pub key: String,
    pub decision: Decision,
    pub ops: Vec<FileOp>,
}

/// The plan for one album as plain values.
pub struct AlbumPlanView {
    pub key: Seq<char>,
    pub decision: Decision,
    pub ops: Seq<FileOpView>,
}

impl View for AlbumPlan {
    type V = AlbumPlanView;

    open spec fn view(&self) -> AlbumPlanView {
        AlbumPlanView { key: self.key@, decision: self.decision, ops: self.ops.deep_view() }
    }
}

impl DeepView for AlbumPlan {
    type V = AlbumPlanView;

    open spec fn deep_view(&self) -> AlbumPlanView {
        self@
    }
}

/// Why an album is not brought to a location.
#[derive(Clone, Copy, Debug, PartialEq, Eq, Structural)]
pub enum SyncError {
    /// The sources hold no copy that may be brought.
    NoSuitableSource,
}

/// The key of an album.
pub open spec fn album_key(a: AlbumView) -> Seq<char> {
    key_of(a.parsed_artist, a.parsed_title)
}

/// The plan that brings all of `src` to the location.
pub open spec fn full_copy_at<L: Location>(loc: &L, src: AlbumView) -> Seq<FileOpView> {
    full_copy_ops(loc.on_device(), loc.dirs_for(src), loc.target_of(src), src)
}

/// The destination holds the release in the format.
pub open spec fn satisfied_at(dest: Seq<AlbumView>, key: Seq<char>, ft: FileType) -> bool {
    exists|i: int|
        0 <= i < dest.len() && album_key(#[trigger] dest[i]) == key && type_of(dest[i].tracks)
            == Some(ft)
}

/// The destination holds the release in some form.
pub open spec fn represented_at(dest: Seq<AlbumView>, key: Seq<char>) -> bool {
    exists|i: int| 0 <= i < dest.len() && album_key(#[trigger] dest[i]) == key
}

/// The plan for the album `a` that the destination holds.
///
/// An album without a format is reported. An album in the wanted format
/// stays, and what it lacks of the best source copy is copied. An album in
/// another format is removed and replaced by the best source copy, unless
/// the destination holds the release in the wanted format as well; where
/// there is no source copy it stays, accepted where any format is allowed
/// and reported otherwise. A conversion comes before everything else.
pub open spec fn existing_plan<L: Location>(
    loc: &L,
    a: AlbumView,
    dest: Seq<AlbumView>,
    index: Seq<EntryView>,
    wanted: FileType,
    allow_any: bool,
) -> AlbumPlanView {
    let key = album_key(a);
    match type_of(a.tracks) {
        None => AlbumPlanView { key, decision: Decision::UnknownType, ops: Seq::empty() },
        Some(has) => match best_copy(index, key, wanted) {
            Some(copy) => if has == wanted {
                AlbumPlanView {
                    key,
                    decision: Decision::Backfill,
                    ops: copy.preparation + backfill_ops(loc.on_device(), copy.album, a),
                }
            } else if !satisfied_at(dest, key, wanted) {
                AlbumPlanView {
                    key,
                    decision: Decision::Replace,
                    ops: copy.preparation + seq![remove_dir(loc.on_device(), a.dir_path)]
                        + full_copy_at(loc, copy.album),
                }
            } else {
                AlbumPlanView { key, decision: Decision::Untouched, ops: Seq::empty() }
            },
            None => AlbumPlanView {
                key,
                decision: if has == wanted {
                    Decision::Keep
                } else if allow_any {
                    Decision::Accept
                } else {
                    Decision::Untouched
                },
                ops: Seq::empty(),
            },
        },
    }
}

/// The plan for a release that the destination lacks: the best source copy
/// is brought; failing that, where any format is allowed, the first
/// available album of the release; failing that, nothing.
pub open spec fn addition_plan<L: Location>(
    loc: &L,
    key: Seq<char>,
    index: Seq<EntryView>,
    wanted: FileType,
    allow_any: bool,
) -> AlbumPlanView {
    match best_copy(index, key, wanted) {
        Some(copy) => AlbumPlanView {
            key,
            decision: Decision::Add,
            ops: copy.preparation + full_copy_at(loc, copy.album),
        },
        None => match first_available(index, key) {
            Some(e) => if allow_any {
                AlbumPlanView {
                    key,
                    decision: Decision::AddFallback(e.file_type),
                    ops: full_copy_at(loc, e.album),
                }
            } else {
                AlbumPlanView { key, decision: Decision::NoSuitableSource, ops: Seq::empty() }
            },
            None => AlbumPlanView { key, decision: Decision::NoSuitableSource, ops: Seq::empty() },
        },
    }
}

/// One of the first `n` entries of the index has the key.
pub open spec fn keyed_before(index: Seq<EntryView>, key: Seq<char>, n: int) -> bool {
    exists|j: int| 0 <= j < n && j < index.len() && (#[trigger] index[j]).key == key
}

/// The plans for the first `n` albums of the destination, in order.
pub open spec fn existing_plans<L: Location>(
    loc: &L,
    dest: Seq<AlbumView>,
    index: Seq<EntryView>,
    wanted: FileType,
    allow_any: bool,
    n: int,
) -> Seq<AlbumPlanView>
    decreases n,
{
    if n <= 0 || n > dest.len() {
        Seq::empty()
    } else {
        existing_plans(loc, dest, index, wanted, allow_any, n - 1).push(
            existing_plan(loc, dest[n - 1], dest, index, wanted, allow_any),
        )
    }
}

/// The plans for the releases among the first `n` entries of the index
/// that the destination does not hold, one for each release, in the order
/// of the index.
pub open spec fn missing_plans<L: Location>(
    loc: &L,
    dest: Seq<AlbumView>,
    index: Seq<EntryView>,
    wanted: FileType,
    allow_any: bool,
    n: int,
) -> Seq<AlbumPlanView>
    decreases n,
{
    if n <= 0 || n > index.len() {
        Seq::empty()
    } else {
        let before = missing_plans(loc, dest, index, wanted, allow_any, n - 1);
        let key = index[n - 1].key;
        if represented_at(dest, key) || keyed_before(index, key, n - 1) {
            before
        } else {
            before.push(addition_plan(loc, key, index, wanted, allow_any))
        }
    }
}

/// The plan of one pass: first the albums that the destination holds are
/// put right, then the releases that it lacks are brought.
pub open spec fn pass_plans<L: Location>(
    loc: &L,
    dest: Seq<AlbumView>,
    index: Seq<EntryView>,
    wanted: FileType,
    allow_any: bool,
) -> Seq<AlbumPlanView> {
    existing_plans(loc, dest, index, wanted, allow_any, dest.len() as int) + missing_plans(
        loc,
        dest,
        index,
        wanted,
        allow_any,
        index.len() as int,
    )
}

/// An album at the destination in another format than the wanted, lossless
/// one, for which the sources hold no album in the wanted format, is never
/// removed: unless any format is allowed it is left untouched and reported,
/// and no operation is planned for it.
pub proof fn lemma_without_source_nothing_is_removed<L: Location>(
    loc: &L,
    a: AlbumView,
    dest: Seq<AlbumView>,
    index: Seq<EntryView>,
    wanted: FileType,
)
    requires
        lossless(wanted),
        type_of(a.tracks) matches Some(has) && has != wanted,
        lookup(index, album_key(a), wanted).is_none(),
    ensures
        existing_plan(loc, a, dest, index, wanted, false).decision == Decision::Untouched,
        existing_plan(loc, a, dest, index, wanted, false).ops == Seq::<FileOpView>::empty(),
        existing_plan(loc, a, dest, index, wanted, true).decision == Decision::Accept,
        existing_plan(loc, a, dest, index, wanted, true).ops == Seq::<FileOpView>::empty(),
{
}

/// Nothing is left to do at the destination: it holds every release of
/// the sources, and each of its albums either has no source copy in the
/// wanted format, or stands beside an album of its release in that format,
/// or has that format and lacks nothing of the source album.
pub open spec fn in_step<L: Location>(
    loc: &L,
    dest: Seq<AlbumView>,
    index: Seq<EntryView>,
    wanted: FileType,
) -> bool {
    &&& forall|j: int| 0 <= j < index.len() ==> represented_at(dest, (#[trigger] index[j]).key)
    &&& forall|i: int|
        0 <= i < dest.len() ==> (type_of((#[trigger] dest[i]).tracks) matches Some(has) ==> {
            ||| best_copy(index, album_key(dest[i]), wanted).is_none()
            ||| has != wanted && satisfied_at(dest, album_key(dest[i]), wanted)
            ||| has == wanted && (lookup(index, album_key(dest[i]), wanted) matches Some(e)
                && complete(loc.on_device(), e.album, dest[i]))
        })
}

/// The plans for the albums of the destination are one for each album.
pub proof fn lemma_existing_plans<L: Location>(
    loc: &L,
    dest: Seq<AlbumView>,
    index: Seq<EntryView>,
    wanted: FileType,
    allow_any: bool,
    n: int,
)
    requires
        0 <= n <= dest.len(),
    ensures
        existing_plans(loc, dest, index, wanted, allow_any, n).len() == n,
        forall|i: int|
            0 <= i < n ==> #[trigger] existing_plans(loc, dest, index, wanted, allow_any, n)[i]
                == existing_plan(loc, dest[i], dest, index, wanted, allow_any),
    decreases n,
{
    if n > 0 {
        lemma_existing_plans(loc, dest, index, wanted, allow_any, n - 1);
    }
}

/// Where the destination holds every release of the sources, none is
/// brought.
pub proof fn lemma_nothing_missing<L: Location>(
    loc: &L,
    dest: Seq<AlbumView>,
    index: Seq<EntryView>,
    wanted: FileType,
    allow_any: bool,
    n: int,
)
    requires
        forall|j: int| 0 <= j < index.len() ==> represented_at(dest, (#[trigger] index[j]).key),
    ensures
        missing_plans(loc, dest, index, wanted, allow_any, n) == Seq::<AlbumPlanView>::empty(),
    decreases n,
{
    if 0 < n <= index.len() {
        lemma_nothing_missing(loc, dest, index, wanted, allow_any, n - 1);
        assert(represented_at(dest, index[n - 1].key));
    }
}

/// A pass over a destination at which nothing is left to do plans no file
/// operation.
pub proof fn lemma_pass_in_step_does_nothing<L: Location>(
    loc: &L,
    dest: Seq<AlbumView>,
    index: Seq<EntryView>,
    wanted: FileType,
    allow_any: bool,
)
    requires
        in_step(loc, dest, index, wanted),
    ensures
        pass_plans(loc, dest, index, wanted, allow_any).len() == dest.len(),
        forall|i: int|
            0 <= i < dest.len() ==> (#[trigger] pass_plans(
                loc,
                dest,
                index,
                wanted,
                allow_any,
            )[i]).ops == Seq::<FileOpView>::empty(),
{
    lemma_existing_plans(loc, dest, index, wanted, allow_any, dest.len() as int);
    lemma_nothing_missing(loc, dest, index, wanted, allow_any, index.len() as int);
    let plans = pass_plans(loc, dest, index, wanted, allow_any);
    assert(plans =~= existing_plans(loc, dest, index, wanted, allow_any, dest.len() as int));
    assert forall|i: int| 0 <= i < dest.len() implies (#[trigger] plans[i]).ops == Seq::<
        FileOpView,
    >::empty() by {
        let a = dest[i];
        assert(plans[i] == existing_plan(loc, a, dest, index, wanted, allow_any));
        match type_of(a.tracks) {
            None => {},
            Some(has) => {
                if best_copy(index, album_key(a), wanted).is_some() {
                    if has == wanted {
                        let e = lookup(index, album_key(a), wanted)->0;
                        lemma_complete_needs_nothing(loc.on_device(), e.album, a);
                        assert(Seq::<FileOpView>::empty() + Seq::<FileOpView>::empty()
                            =~= Seq::<FileOpView>::empty());
                    }
                }
            },
        }
    }
}

/// The best copy of a release has the key of the release and the wanted
/// format.
pub proof fn lemma_best_copy_fits(index: Seq<EntryView>, key: Seq<char>, wanted: FileType)
    requires
        index_wf(index),
    ensures
        best_copy(index, key, wanted) matches Some(copy) ==> album_key(copy.album) == key
            && type_of(copy.album.tracks) == Some(wanted),
{
    lemma_entry_position(index, key, wanted, 0);
    lemma_entry_position(index, key, FileType::Flac, 0);
    lemma_entry_position(index, key, FileType::Wav, 0);
    if lookup(index, key, wanted).is_none() && !lossless(wanted) {
        match lossless_entry(index, key) {
            None => {},
            Some(e) => {
                match type_of(e.album.tracks) {
                    Some(from) => {
                        lemma_conversion_has_wanted_format(e.album, e.root, from, wanted);
                    },
                    None => {},
                }
            },
        }
    }
}

/// What a pass has brought needs nothing in the next pass. Let the
/// sources hold the best copy of a release, as they do once its conversion
/// is done, and let the destination hold an album that is found under the
/// key of the release with the tracks of that copy and the cover files as
/// the full copy writes them. Then the album is kept, and no operation is
/// planned for it.
pub proof fn lemma_brought_album_needs_nothing<L: Location>(
    loc: &L,
    index: Seq<EntryView>,
    key: Seq<char>,
    wanted: FileType,
    allow_any: bool,
    root: Seq<char>,
    brought: AlbumView,
    dest: Seq<AlbumView>,
)
    requires
        index_wf(index),
        best_copy(index, key, wanted) matches Some(copy) && album_key(brought) == key
            && brought.tracks == copy.album.tracks && brought.cover_files == written_covers(
            loc.on_device(),
            loc.target_of(copy.album),
            copy.album.cover_files,
        ),
    ensures
        existing_plan(
            loc,
            brought,
            dest,
            with_album(index, best_copy(index, key, wanted)->0.album, root),
            wanted,
            allow_any,
        ).decision == Decision::Backfill,
        existing_plan(
            loc,
            brought,
            dest,
            with_album(index, best_copy(index, key, wanted)->0.album, root),
            wanted,
            allow_any,
        ).ops == Seq::<FileOpView>::empty(),
{
    let copy = best_copy(index, key, wanted)->0;
    let held = with_album(index, copy.album, root);
    lemma_best_copy_fits(index, key, wanted);
    lemma_entry_position(index, key, wanted, 0);
    lemma_put_is_found(index, copy.album, root, 0);
    assert(lookup(held, key, wanted) matches Some(e) && e.album == copy.album);
    lemma_full_copy_is_complete(
        loc.on_device(),
        loc.target_of(copy.album),
        copy.album,
        brought,
    );
    assert(Seq::<FileOpView>::empty() + Seq::<FileOpView>::empty() =~= Seq::<FileOpView>::empty());
}

/// One of the plans is for the release.
pub open spec fn planned(plans: Seq<AlbumPlanView>, key: Seq<char>) -> bool {
    exists|p: int| 0 <= p < plans.len() && (#[trigger] plans[p]).key == key
}

/// The plans for what the destination lacks leave no release of the
/// sources out and plan none twice: each release among the first `n`
/// entries of the index is held by the destination or has a plan, each plan
/// is for a release that the destination does not hold and that stands
/// among these entries, and no two plans are for the same release.
pub proof fn lemma_missing_plans_cover<L: Location>(
    loc: &L,
    dest: Seq<AlbumView>,
    index: Seq<EntryView>,
    wanted: FileType,
    allow_any: bool,
    n: int,
)
    requires
        0 <= n <= index.len(),
    ensures
        forall|j: int|
            0 <= j < n ==> represented_at(dest, (#[trigger] index[j]).key) || planned(
                missing_plans(loc, dest, index, wanted, allow_any, n),
                index[j].key,
            ),
        forall|p: int|
            0 <= p < missing_plans(loc, dest, index, wanted, allow_any, n).len()
                ==> !represented_at(
                dest,
                (#[trigger] missing_plans(loc, dest, index, wanted, allow_any, n)[p]).key,
            ) && keyed_before(
                index,
                missing_plans(loc, dest, index, wanted, allow_any, n)[p].key,
                n,
            ),
        forall|p: int, q: int|
            0 <= p < q < missing_plans(loc, dest, index, wanted, allow_any, n).len() ==> (
            #[trigger] missing_plans(loc, dest, index, wanted, allow_any, n)[p]).key != (
            #[trigger] missing_plans(loc, dest, index, wanted, allow_any, n)[q]).key,
    decreases n,
{
    if n > 0 {
        lemma_missing_plans_cover(loc, dest, index, wanted, allow_any, n - 1);
        let before = missing_plans(loc, dest, index, wanted, allow_any, n - 1);
        let now = missing_plans(loc, dest, index, wanted, allow_any, n);
        let key = index[n - 1].key;
        let added = !(represented_at(dest, key) || keyed_before(index, key, n - 1));
        assert forall|p: int| 0 <= p < now.len() implies !represented_at(
            dest,
            (#[trigger] now[p]).key,
        ) && keyed_before(index, now[p].key, n) by {
            if p < before.len() {
                assert(now[p] == before[p]);
                let k = before[p].key;
                let j = choose|j: int|
                    0 <= j < n - 1 && j < index.len() && (#[trigger] index[j]).key == k;
                assert(index[j].key == k);
            } else {
                assert(index[n - 1].key == key);
            }
        }
        assert forall|p: int, q: int| 0 <= p < q < now.len() implies (#[trigger] now[p]).key != (
        #[trigger] now[q]).key by {
            assert(now[p] == before[p]);
            if q < before.len() {
                assert(now[q] == before[q]);
            } else {
                assert(keyed_before(index, before[p].key, n - 1));
            }
        }
        assert forall|j: int| 0 <= j < n implies represented_at(dest, (#[trigger] index[j]).key)
            || planned(now, index[j].key) by {
            let k = index[j].key;
            if !represented_at(dest, k) {
                if j < n - 1 {
                    assert(planned(before, k));
                    let p = choose|p: int| 0 <= p < before.len() && (#[trigger] before[p]).key == k;
                    assert(now[p].key == k);
                } else if added {
                    assert(now[before.len() as int].key == k);
                } else {
                    let i = choose|i: int|
                        0 <= i < n - 1 && i < index.len() && (#[trigger] index[i]).key == k;
                    assert(represented_at(dest, index[i].key) || planned(before, index[i].key));
                    let p = choose|p: int| 0 <= p < before.len() && (#[trigger] before[p]).key == k;
                    assert(now[p].key == k);
                }
            }
        }
    }
}

/// Appends the operations `more` to `out`.
pub fn extend_ops(out: &mut Vec<FileOp>, more: Vec<FileOp>)
    ensures
        final(out).deep_view() == old(out).deep_view() + more.deep_view(),
{
    let ghost before = out.deep_view();
    let ghost added = more.deep_view();
    let mut more = more;
    out.append(&mut more);
    assert(out.deep_view() =~= before + added);
}

/// The best copy of the release `key` that the sources can give in the
/// format `wanted`.
pub fn best_copy_of(key: &String, wanted: FileType, album_lookup: &SourceIndex) -> (r: Option<
    SourceCopy,
>)
    ensures
        match r {
            Some(c) => best_copy(album_lookup@, key@, wanted) == Some(c@),
            None => best_copy(album_lookup@, key@, wanted).is_none(),
        },
{
    match album_lookup.get(key, wanted) {
        Some(e) => {
            let copy = SourceCopy { album: e.album.clone(), preparation: Vec::new() };
            assert(copy.preparation.deep_view() =~= Seq::<FileOpView>::empty());
            Some(copy)
        },
        None => {
            if wanted.is_lossless() {
                return None;
            }
            let entry = match album_lookup.get(key, FileType::Flac) {
                Some(e) => Some(e),
                None => album_lookup.get(key, FileType::Wav),
            };
            match entry {
                None => None,
                Some(e) => match convert_src_album(e.root.as_str(), &e.album, &wanted) {
                    Ok(c) => Some(SourceCopy { album: c.album, preparation: c.ops }),
                    Err(_) => None,
                },
            }
        },
    }
}

/// The best copy of `album` that the sources can give in the format
/// `dest_ft`.
pub fn get_ft_src_album(album: &Album, dest_ft: &FileType, album_lookup: &SourceIndex) -> (r:
    Option<SourceCopy>)
    ensures
        match r {
            Some(c) => best_copy(album_lookup@, album_key(album@), *dest_ft) == Some(c@),
            None => best_copy(album_lookup@, album_key(album@), *dest_ft).is_none(),
        },
{
    let key = album.key();
    best_copy_of(&key, *dest_ft, album_lookup)
}

/// The first album of the release `key` that the sources hold, in the
/// order in which formats are preferred, with the format under which the
/// index holds it.
pub fn first_available_album(key: &String, album_lookup: &SourceIndex) -> (r: Option<
    (FileType, Album),
>)
    ensures
        match r {
            Some((ft, a)) => first_available(album_lookup@, key@) matches Some(e) && e.file_type
                == ft && e.album == a@,
            None => first_available(album_lookup@, key@).is_none(),
        },
{
    match album_lookup.get(key, FileType::Flac) {
        Some(e) => Some((e.file_type, e.album.clone())),
        None => match album_lookup.get(key, FileType::Wav) {
            Some(e) => Some((e.file_type, e.album.clone())),
            None => match album_lookup.get(key, FileType::MP3) {
                Some(e) => Some((e.file_type, e.album.clone())),
                None => match album_lookup.get(key, FileType::M4A) {
                    Some(e) => Some((e.file_type, e.album.clone())),
                    None => None,
                },
            },
        },
    }
}

/// The plan for the release `key`, which the destination lacks.
pub fn plan_addition<L: Location>(
    location: &L,
    key: &String,
    album_lookup: &SourceIndex,
    ft: &FileType,
    allow_any: bool,
) -> (r: AlbumPlan)
    ensures
        r@ == addition_plan(location, key@, album_lookup@, *ft, allow_any),
{
    match best_copy_of(key, *ft, album_lookup) {
        Some(copy) => {
            let mut ops = copy.preparation;
            extend_ops(&mut ops, location.copy_full_album(&copy.album));
            AlbumPlan { key: key.clone(), decision: Decision::Add, ops: ops }
        },
        None => {
            match first_available_album(key, album_lookup) {
                Some((got, album)) => {
                    if allow_any {
                        AlbumPlan {
                            key: key.clone(),
                            decision: Decision::AddFallback(got),
                            ops: location.copy_full_album(&album),
                        }
                    } else {
                        let plan = AlbumPlan {
                            key: key.clone(),
                            decision: Decision::NoSuitableSource,
                            ops: Vec::new(),
                        };
                        assert(plan.ops.deep_view() =~= Seq::<FileOpView>::empty());
                        plan
                    }
                },
                None => {
                    let plan = AlbumPlan {
                        key: key.clone(),
                        decision: Decision::NoSuitableSource,
                        ops: Vec::new(),
                    };
                    assert(plan.ops.deep_view() =~= Seq::<FileOpView>::empty());
                    plan
                },
            }
        },
    }
}

/// The plan that brings the release of `src_album` to the location, and
/// the format in which it arrives: the wanted one where the best source
/// copy is brought, else the format of the album that stands in for it.
pub fn ensure_album_is_in_location<L: Location>(
    src_album: &Album,
    dest_ft: &FileType,
    album_lookup: &SourceIndex,
    location: &L,
    allow_any: bool,
) -> (r: Result<(FileType, Vec<FileOp>), SyncError>)
    ensures
        ({
            let plan = addition_plan(
                location,
                album_key(src_album@),
                album_lookup@,
                *dest_ft,
                allow_any,
            );
            match r {
                Ok((ft, ops)) => ops.deep_view() == plan.ops && ((plan.decision == Decision::Add
                    && ft == *dest_ft) || plan.decision == Decision::AddFallback(ft)),
                Err(e) => plan.decision == Decision::NoSuitableSource,
            }
        }),
{
    let key = src_album.key();
    let plan = plan_addition(location, &key, album_lookup, dest_ft, allow_any);
    match plan.decision {
        Decision::Add => Ok((*dest_ft, plan.ops)),
        Decision::AddFallback(ft) => Ok((ft, plan.ops)),
        _ => Err(SyncError::NoSuitableSource),
    }
}

/// Tells whether the destination holds the release in the format.
pub fn is_satisfied(albums: &Vec<Album>, key: &String, ft: FileType) -> (r: bool)
    ensures
        r == satisfied_at(albums.deep_view(), key@, ft),
{
    let mut i: usize = 0;
    while i < albums.len()
        invariant
            i <= albums.len(),
            forall|k: int|
                0 <= k < i ==> !(album_key(#[trigger] albums.deep_view()[k]) == key@ && type_of(
                    albums.deep_view()[k].tracks,
                ) == Some(ft)),
        decreases albums.len() - i,
    {
        if albums[i].key() == *key && albums[i].file_type() == Some(ft) {
            assert(album_key(albums.deep_view()[i as int]) == key@);
            return true;
        }
        i += 1;
    }
    false
}

/// The plan for the album `a` that the destination holds.
pub fn plan_existing<L: Location>(
    location: &L,
    a: &Album,
    albums: &Vec<Album>,
    album_lookup: &SourceIndex,
    ft: &FileType,
    allow_any: bool,
) -> (r: AlbumPlan)
    ensures
        r@ == existing_plan(location, a@, albums.deep_view(), album_lookup@, *ft, allow_any),
{
    let key = a.key();
    let wanted = *ft;
    let has = match a.file_type() {
        None => {
            let plan = AlbumPlan { key: key, decision: Decision::UnknownType, ops: Vec::new() };
            assert(plan.ops.deep_view() =~= Seq::<FileOpView>::empty());
            return plan;
        },
        Some(has) => has,
    };
    match get_ft_src_album(a, ft, album_lookup) {
        Some(copy) => {
            if has == wanted {
                let mut ops = copy.preparation;
                // `a` was found in the listing of the destination, so its
                // directory exists.
                extend_ops(&mut ops, location.copy_missing_files(&copy.album, a, true));
                AlbumPlan { key: key, decision: Decision::Backfill, ops: ops }
            } else if !is_satisfied(albums, &key, wanted) {
                let mut ops = copy.preparation;
                extend_ops(&mut ops, location.del_album(a));
                extend_ops(&mut ops, location.copy_full_album(&copy.album));
                AlbumPlan { key: key, decision: Decision::Replace, ops: ops }
            } else {
                let plan = AlbumPlan { key: key, decision: Decision::Untouched, ops: Vec::new() };
                assert(plan.ops.deep_view() =~= Seq::<FileOpView>::empty());
                plan
            }
        },
        None => {
            let decision = if has == wanted {
                Decision::Keep
            } else if allow_any {
                Decision::Accept
            } else {
                Decision::Untouched
            };
            let plan = AlbumPlan { key: key, decision: decision, ops: Vec::new() };
            assert(plan.ops.deep_view() =~= Seq::<FileOpView>::empty());
            plan
        },
    }
}

/// The keys of the albums.
pub fn keys_of(albums: &Vec<Album>) -> (r: Vec<String>)
    ensures
        r.len() == albums.len(),
        forall|i: int| 0 <= i < r.len() ==> (#[trigger] r[i])@ == album_key(albums[i]@),
{
    let mut out: Vec<String> = Vec::new();
    let mut i: usize = 0;
    while i < albums.len()
        invariant
            i <= albums.len(),
            out.len() == i,
            forall|k: int| 0 <= k < i ==> (#[trigger] out[k])@ == album_key(albums[k]@),
        decreases albums.len() - i,
    {
        out.push(albums[i].key());
        i += 1;
    }
    out
}

/// Plans one pass over a destination: `albums` is what the location holds,
/// `album_lookup` what the sources hold, `ft` the wanted format. The albums
/// of the destination are put right first, in their order; then the
/// releases that it lacks are brought, in the order of the index.
pub fn sync_to_loc<L: Location>(
    location: &L,
    ft: &FileType,
    album_lookup: &SourceIndex,
    albums: &Vec<Album>,
    allow_any: bool,
) -> (r: Vec<AlbumPlan>)
    ensures
        r.deep_view() == pass_plans(
            location,
            albums.deep_view(),
            album_lookup@,
            *ft,
            allow_any,
        ),
{
    let ghost dest = albums.deep_view();
    let ghost index = album_lookup@;
    let mut out: Vec<AlbumPlan> = Vec::new();
    let mut i: usize = 0;
    assert(out.deep_view() =~= existing_plans(location, dest, index, *ft, allow_any, 0));
    while i < albums.len()
        invariant
            i <= albums.len(),
            dest == albums.deep_view(),
            index == album_lookup@,
            out.deep_view() == existing_plans(location, dest, index, *ft, allow_any, i as int),
        decreases albums.len() - i,
    {
        let ghost before = out.deep_view();
        let plan = plan_existing(location, &albums[i], albums, album_lookup, ft, allow_any);
        let ghost pv = plan@;
        out.push(plan);
        assert(out.deep_view() =~= before.push(pv));
        i += 1;
    }
    let ghost first = out.deep_view();
    let mut seen: Vec<String> = keys_of(albums);
    let mut j: usize = 0;
    proof {
        assert forall|k: Seq<char>| #[trigger]
            seen.deep_view().contains(k) <==> (represented_at(dest, k) || keyed_before(
                index,
                k,
                0,
            )) by {
            if seen.deep_view().contains(k) {
                let i = choose|i: int| 0 <= i < seen.deep_view().len() && seen.deep_view()[i] == k;
                assert(seen[i]@ == album_key(albums[i]@));
                assert(album_key(dest[i]) == k);
            }
            if represented_at(dest, k) {
                let i = choose|i: int| 0 <= i < dest.len() && album_key(#[trigger] dest[i]) == k;
                assert(seen[i]@ == album_key(albums[i]@));
                assert(seen.deep_view()[i] == k);
            }
        }
    }
    assert(out.deep_view() =~= first + missing_plans(location, dest, index, *ft, allow_any, 0));
    while j < album_lookup.entries.len()
        invariant
            j <= album_lookup.entries.len(),
            dest == albums.deep_view(),
            index == album_lookup@,
            forall|k: Seq<char>|
                #[trigger] seen.deep_view().contains(k) <==> (represented_at(dest, k)
                    || keyed_before(index, k, j as int)),
            out.deep_view() == first + missing_plans(
                location,
                dest,
                index,
                *ft,
                allow_any,
                j as int,
            ),
        decreases album_lookup.entries.len() - j,
    {
        let ghost before = out.deep_view();
        let ghost had = seen.deep_view();
        let entry = &album_lookup.entries[j];
        let ghost key = index[j as int].key;
        assert(entry.key@ == key);
        if !holds(&seen, &entry.key) {
            let plan = plan_addition(location, &entry.key, album_lookup, ft, allow_any);
            let ghost pv = plan@;
            out.push(plan);
            assert(out.deep_view() =~= before.push(pv));
            seen.push(entry.key.clone());
            assert(seen.deep_view() =~= had.push(key));
        }
        proof {
            assert forall|k: Seq<char>| #[trigger]
                seen.deep_view().contains(k) <==> (represented_at(dest, k) || keyed_before(
                    index,
                    k,
                    j + 1,
                )) by {
                lemma_keyed_next(index, k, j as int);
                if seen.deep_view() != had {
                    lemma_push_holds(had, key, k);
                }
            }
        }
        j += 1;
    }
    out
}

/// A list with one more name holds that name and what it held before.
pub proof fn lemma_push_holds(s: Seq<Seq<char>>, x: Seq<char>, k: Seq<char>)
    ensures
        s.push(x).contains(k) <==> (s.contains(k) || k == x),
{
    let t = s.push(x);
    if t.contains(k) {
        let i = choose|i: int| 0 <= i < t.len() && t[i] == k;
        if i < s.len() {
            assert(s[i] == k);
        }
    }
    if s.contains(k) {
        let i = choose|i: int| 0 <= i < s.len() && s[i] == k;
        assert(t[i] == k);
    }
    if k == x {
        assert(t[s.len() as int] == k);
    }
}

/// One more entry of the index has the key, or one of those before it.
pub proof fn lemma_keyed_next(index: Seq<EntryView>, key: Seq<char>, n: int)
    requires
        0 <= n < index.len(),
    ensures
        keyed_before(index, key, n + 1) <==> (keyed_before(index, key, n) || index[n].key == key),
{
    if keyed_before(index, key, n + 1) {
        let j = choose|j: int| 0 <= j < n + 1 && j < index.len() && (#[trigger] index[j]).key == key;
        if j < n {
            assert(keyed_before(index, key, n));
        }
    }
    if index[n].key == key {
        assert(keyed_before(index, key, n + 1));
    }
    if keyed_before(index, key, n) {
        let j = choose|j: int| 0 <= j < n && j < index.len() && (#[trigger] index[j]).key == key;
        assert(index[j].key == key);
        assert(keyed_before(index, key, n + 1));
    }
}

/// After an operation that failed, the plan of its album goes on unless
/// the operation was a run of the encoder: a failed transfer is passed
/// over, a failed conversion ends the plan.
pub open spec fn goes_on(op: FileOpView, succeeded: bool) -> bool {
    succeeded || !(op is Encode)
}

/// Tells whether the plan of an album goes on after the operation `op`.
pub fn may_continue(op: &FileOp, succeeded: bool) -> (r: bool)
    ensures
        r == goes_on(op@, succeeded),
{
    if succeeded {
        return true;
    }
    match op {
        FileOp::Encode { args } => false,
        _ => true,
    }
}

/// Where albums are brought to.
#[derive(Debug)]
pub enum Destination {
    /// A directory of this machine.
    PathDest(String),
    /// The device behind the debug bridge.
    ADBDest,
}

/// One destination with the format that is wanted there, and whether
/// another format will do where that one cannot be had.
#[derive(Debug)]
pub struct DestinationConfig {
    pub destination: Destination,
    pub file_type: FileType,
    pub allow_any: bool,
}

/// A destination as plain values: the directory, or none for the device.
pub struct DestinationView {
    pub dir: Option<Seq<char>>,
    pub file_type: FileType,
    pub allow_any: bool,
}

impl View for DestinationConfig {
    type V = DestinationView;

    open spec fn view(&self) -> DestinationView {
        DestinationView {
            dir: match self.destination {
                Destination::PathDest(p) => Some(p@),
                Destination::ADBDest => None,
            },
            file_type: self.file_type,
            allow_any: self.allow_any,
        }
    }
}

impl DeepView for DestinationConfig {
    type V = DestinationView;

    open spec fn deep_view(&self) -> DestinationView {
        self@
    }
}

impl Clone for DestinationConfig {
    fn clone(&self) -> (r: DestinationConfig)
        ensures
            r@ == self@,
    {
        DestinationConfig {
            destination: match &self.destination {
                Destination::PathDest(p) => Destination::PathDest(p.clone()),
                Destination::ADBDest => Destination::ADBDest,
            },
            file_type: self.file_type,
            allow_any: self.allow_any,
        }
    }
}

/// The turn of a destination: directories that are sources as well come
/// first, other directories second, the device last.
pub open spec fn turn_of(d: DestinationView, sources: Seq<Seq<char>>) -> int {
    match d.dir {
        Some(p) => if sources.contains(p) {
            0
        } else {
            1
        },
        None => 2,
    }
}

/// Those of the first `n` destinations whose turn is `turn`, in order.
pub open spec fn of_turn(
    destinations: Seq<DestinationView>,
    sources: Seq<Seq<char>>,
    turn: int,
    n: int,
) -> Seq<DestinationView>
    decreases n,
{
    if n <= 0 || n > destinations.len() {
        Seq::empty()
    } else {
        let before = of_turn(destinations, sources, turn, n - 1);
        if turn_of(destinations[n - 1], sources) == turn {
            before.push(destinations[n - 1])
        } else {
            before
        }
    }
}

/// The destinations in the order in which they are reconciled.
pub open spec fn in_turn(destinations: Seq<DestinationView>, sources: Seq<Seq<char>>) -> Seq<
    DestinationView,
> {
    let n = destinations.len() as int;
    of_turn(destinations, sources, 0, n) + of_turn(destinations, sources, 1, n) + of_turn(
        destinations,
        sources,
        2,
        n,
    )
}

/// Each destination picked for a turn has that turn.
pub proof fn lemma_of_turn(
    destinations: Seq<DestinationView>,
    sources: Seq<Seq<char>>,
    turn: int,
    n: int,
)
    ensures
        forall|i: int|
            0 <= i < of_turn(destinations, sources, turn, n).len() ==> turn_of(
                #[trigger] of_turn(destinations, sources, turn, n)[i],
                sources,
            ) == turn,
    decreases n,
{
    if 0 < n <= destinations.len() {
        lemma_of_turn(destinations, sources, turn, n - 1);
        let before = of_turn(destinations, sources, turn, n - 1);
        let now = of_turn(destinations, sources, turn, n);
        assert forall|i: int| 0 <= i < now.len() implies turn_of(#[trigger] now[i], sources)
            == turn by {
            if i < before.len() {
                assert(now[i] == before[i]);
            }
        }
    }
}

/// Every directory is reconciled before the device, and every directory
/// that is a source before any that is not.
pub proof fn lemma_directories_come_first(
    destinations: Seq<DestinationView>,
    sources: Seq<Seq<char>>,
)
    ensures
        forall|i: int, j: int|
            0 <= i < j < in_turn(destinations, sources).len() ==> turn_of(
                #[trigger] in_turn(destinations, sources)[i],
                sources,
            ) <= turn_of(#[trigger] in_turn(destinations, sources)[j], sources),
{
    let n = destinations.len() as int;
    lemma_of_turn(destinations, sources, 0, n);
    lemma_of_turn(destinations, sources, 1, n);
    lemma_of_turn(destinations, sources, 2, n);
    let a = of_turn(destinations, sources, 0, n);
    let b = of_turn(destinations, sources, 1, n);
    let c = of_turn(destinations, sources, 2, n);
    let all = in_turn(destinations, sources);
    assert forall|i: int| 0 <= i < all.len() implies turn_of(#[trigger] all[i], sources) == (if i
        < a.len() {
        0int
    } else if i < a.len() + b.len() {
        1int
    } else {
        2int
    }) by {
        if i < a.len() {
            assert(all[i] == a[i]);
        } else if i < a.len() + b.len() {
            assert(all[i] == b[i - a.len()]);
        } else {
            assert(all[i] == c[i - a.len() - b.len()]);
        }
    }
}

/// The turn of a destination.
pub fn turn(d: &DestinationConfig, source_directories: &Vec<String>) -> (r: u8)
    ensures
        r as int == turn_of(d@, source_directories.deep_view()),
{
    match &d.destination {
        Destination::PathDest(p) => if holds(source_directories, p) {
            0
        } else {
            1
        },
        Destination::ADBDest => 2,
    }
}

/// Puts the destinations into the order in which they are reconciled:
/// directories that are sources as well, then the other directories, then
/// the device, each group in the order given.
pub fn order_destinations(
    destinations: &Vec<DestinationConfig>,
    source_directories: &Vec<String>,
) -> (r: Vec<DestinationConfig>)
    ensures
        r.deep_view() == in_turn(destinations.deep_view(), source_directories.deep_view()),
{
    let ghost all = destinations.deep_view();
    let ghost sources = source_directories.deep_view();
    let mut out: Vec<DestinationConfig> = Vec::new();
    let mut t: u8 = 0;
    let ghost n = all.len() as int;
    assert(out.deep_view() =~= Seq::<DestinationView>::empty());
    while t < 3
        invariant
            t <= 3,
            all == destinations.deep_view(),
            sources == source_directories.deep_view(),
            n == all.len(),
            out.deep_view() == if t == 0 {
                Seq::<DestinationView>::empty()
            } else if t == 1 {
                of_turn(all, sources, 0, n)
            } else if t == 2 {
                of_turn(all, sources, 0, n) + of_turn(all, sources, 1, n)
            } else {
                in_turn(all, sources)
            },
        decreases 3 - t,
    {
        let ghost start = out.deep_view();
        let mut i: usize = 0;
        assert(out.deep_view() =~= start + of_turn(all, sources, t as int, 0));
        while i < destinations.len()
            invariant
                i <= destinations.len(),
                t < 3,
                all == destinations.deep_view(),
                sources == source_directories.deep_view(),
                out.deep_view() == start + of_turn(all, sources, t as int, i as int),
            decreases destinations.len() - i,
        {
            let ghost before = out.deep_view();
            if turn(&destinations[i], source_directories) == t {
                out.push(destinations[i].clone());
                assert(out.deep_view() =~= before.push(all[i as int]));
                assert(out.deep_view() =~= start + of_turn(all, sources, t as int, i + 1));
            }
            i += 1;
        }
        t += 1;
    }
    out
}

/// Tells whether one of the albums has the key.
pub fn is_represented(albums: &Vec<Album>, key: &String) -> (r: bool)
    ensures
        r == represented_at(albums.deep_view(), key@),
{
    let mut i: usize = 0;
    while i < albums.len()
        invariant
            i <= albums.len(),
            forall|k: int| 0 <= k < i ==> album_key(#[trigger] albums.deep_view()[k]) != key@,
        decreases albums.len() - i,
    {
        if albums[i].key() == *key {
            assert(album_key(albums.deep_view()[i as int]) == key@);
            return true;
        }
        i += 1;
    }
    false
}

/// One of the first `n` albums has the key.
pub open spec fn met_before(albums: Seq<AlbumView>, key: Seq<char>, n: int) -> bool {
    exists|j: int| 0 <= j < n && j < albums.len() && album_key(#[trigger] albums[j]) == key
}

/// The indices, among the first `n` albums of `src`, of those whose
/// release `dst` does not hold, the first album of each release only.
pub open spec fn lacking(src: Seq<AlbumView>, dst: Seq<AlbumView>, n: int) -> Seq<int>
    decreases n,
{
    if n <= 0 || n > src.len() {
        Seq::empty()
    } else {
        let before = lacking(src, dst, n - 1);
        let key = album_key(src[n - 1]);
        if represented_at(dst, key) || met_before(src, key, n - 1) {
            before
        } else {
            before.push(n - 1)
        }
    }
}

/// The albums of `src_albums` whose release `dst_albums` does not hold,
/// by their indices, each release once.
pub fn missing_albums(src_albums: &Vec<Album>, dst_albums: &Vec<Album>) -> (r: Vec<usize>)
    ensures
        r@.map_values(|i: usize| i as int) == lacking(
            src_albums.deep_view(),
            dst_albums.deep_view(),
            src_albums.len() as int,
        ),
{
    let ghost src = src_albums.deep_view();
    let ghost dst = dst_albums.deep_view();
    let mut out: Vec<usize> = Vec::new();
    let mut seen: Vec<String> = Vec::new();
    let mut i: usize = 0;
    assert(out@.map_values(|i: usize| i as int) =~= lacking(src, dst, 0));
    while i < src_albums.len()
        invariant
            i <= src_albums.len(),
            src == src_albums.deep_view(),
            dst == dst_albums.deep_view(),
            forall|k: Seq<char>| #[trigger] seen.deep_view().contains(k) <==> met_before(src, k, i as int),
            out@.map_values(|i: usize| i as int) == lacking(src, dst, i as int),
        decreases src_albums.len() - i,
    {
        let ghost before = out@.map_values(|i: usize| i as int);
        let ghost had = seen.deep_view();
        let key = src_albums[i].key();
        assert(key@ == album_key(src[i as int]));
        if !is_represented(dst_albums, &key) && !holds(&seen, &key) {
            out.push(i);
            assert(out@.map_values(|i: usize| i as int) =~= before.push(i as int));
        }
        let ghost k0 = key@;
        seen.push(key);
        assert(seen.deep_view() =~= had.push(k0));
        proof {
            assert forall|k: Seq<char>| #[trigger]
                seen.deep_view().contains(k) <==> met_before(src, k, i + 1) by {
                lemma_push_holds(had, k0, k);
                if met_before(src, k, i + 1) {
                    let j = choose|j: int|
                        0 <= j < i + 1 && j < src.len() && album_key(#[trigger] src[j]) == k;
                    if j < i {
                        assert(met_before(src, k, i as int));
                    }
                }
                if met_before(src, k, i as int) {
                    let j = choose|j: int|
                        0 <= j < i && j < src.len() && album_key(#[trigger] src[j]) == k;
                    assert(album_key(src[j]) == k);
                    assert(met_before(src, k, i + 1));
                }
                if k == k0 {
                    assert(album_key(src[i as int]) == k);
                    assert(met_before(src, k, i + 1));
                }
            }
        }
        i += 1;
    }
    out
}

} // verus!
