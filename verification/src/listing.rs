//! The directory lister: from what a scan found to the images it shows, in
//! listing order.

use crate::entry::{
    entry_le, entry_models, lemma_entry_le_total_order, ordered, EntryModel, ImageEntry,
};
use crate::error::{message_text, ErrorKind, ErrorModel};
use crate::order::{lemma_path_le_total_order, path_lt};
use crate::scan::{image_of, scan_models, DirectoryScan, ScanModel, ScannedEntry, ScannedModel};
use crate::sorting::{images_at, picks_images, sort_picks};
use vstd::prelude::*;
use vstd::relations::total_ordering;
use vstd::seq_lib::{
    group_to_multiset_ensures, lemma_sorted_unique, to_multiset_contains, to_multiset_len,
};

verus! {

/// [`image_of`], as a function value.
pub open spec fn image_filter() -> spec_fn(ScannedModel) -> Option<EntryModel> {
    |e: ScannedModel| image_of(e)
}

/// [`entry_le`], as a function value.
pub open spec fn listing_order() -> spec_fn(EntryModel, EntryModel) -> bool {
    |a: EntryModel, b: EntryModel| entry_le(a, b)
}

/// The images among the scanned entries, in the order of the scan.
pub open spec fn candidates(scan: Seq<ScannedModel>) -> Seq<EntryModel> {
    scan.filter_map(image_filter())
}

/// The listing of a scanned directory: its images, in listing order.
pub open spec fn listing(scan: Seq<ScannedModel>) -> Seq<EntryModel> {
    candidates(scan).sort_by(listing_order())
}

/// `images` holds the images of the scanned entries, each as often as it
/// was scanned and nothing else, in listing order.
pub open spec fn is_listing_of(images: Seq<EntryModel>, scan: Seq<ScannedModel>) -> bool {
    ordered(images) && images.to_multiset() == candidates(scan).to_multiset()
}

/// What listing a directory gives, for each thing a scan can find there.
pub open spec fn listing_outcome(directory: Seq<char>, scan: ScanModel) -> Result<
    Seq<EntryModel>,
    ErrorModel,
> {
    match scan {
        ScanModel::Missing => Err(ErrorModel::InvalidDirectory),
        ScanModel::NotDirectory => Err(ErrorModel::InvalidDirectory),
        ScanModel::Unreadable => Err(ErrorModel::ReadFailure { path: directory }),
        ScanModel::Entries(entries) => Ok(listing(entries)),
    }
}

proof fn lemma_listing_order_total()
    ensures
        total_ordering(listing_order()),
{
    let le = listing_order();
    assert forall|x: EntryModel| #[trigger] le(x, x) by {
        lemma_entry_le_total_order(x, x, x);
    }
    assert forall|x: EntryModel, y: EntryModel| #[trigger] le(x, y) && #[trigger] le(y, x) implies x
        == y by {
        lemma_entry_le_total_order(x, y, x);
    }
    assert forall|x: EntryModel, y: EntryModel, z: EntryModel| #[trigger]
        le(x, y) && #[trigger] le(y, z) implies le(x, z) by {
        lemma_entry_le_total_order(x, y, z);
    }
    assert forall|x: EntryModel, y: EntryModel| #[trigger] le(x, y) || #[trigger] le(y, x) by {
        lemma_entry_le_total_order(x, y, x);
    }
}

/// A listing is in listing order and holds the images of the scan, each as
/// often as the scan holds it, and nothing else.
pub proof fn lemma_listing_sorted_selection(scan: Seq<ScannedModel>)
    ensures
        is_listing_of(listing(scan), scan),
        listing(scan).len() == candidates(scan).len(),
{
    broadcast use group_to_multiset_ensures;

    lemma_listing_order_total();
    candidates(scan).lemma_sort_by_ensures(listing_order());
    let sorted = listing(scan);
    to_multiset_len(candidates(scan));
    assert forall|i: int, j: int| 0 <= i < j < sorted.len() implies entry_le(
        #[trigger] sorted[i],
        #[trigger] sorted[j],
    ) by {
        assert(listing_order()(sorted[i], sorted[j]));
    }
}

/// The listing is the only arrangement of a scan's images that is in
/// listing order.
pub proof fn lemma_listing_unique(scan: Seq<ScannedModel>, images: Seq<EntryModel>)
    requires
        is_listing_of(images, scan),
    ensures
        images == listing(scan),
{
    lemma_listing_order_total();
    candidates(scan).lemma_sort_by_ensures(listing_order());
    assert forall|i: int, j: int| 0 <= i < j < images.len() implies #[trigger] listing_order()(
        images[i],
        images[j],
    ) by {
        assert(entry_le(images[i], images[j]));
    }
    lemma_sorted_unique(images, listing(scan), listing_order());
}

/// An image is among the candidates exactly if some scanned entry is listed as it.
pub proof fn lemma_candidates_membership(scan: Seq<ScannedModel>, image: EntryModel)
    ensures
        candidates(scan).contains(image) <==> exists|i: int|
            0 <= i < scan.len() && image_of(#[trigger] scan[i]) == Some(image),
    decreases scan.len(),
{
    if scan.len() > 0 {
        let rest = scan.drop_last();
        let from_rest = candidates(rest);
        lemma_candidates_membership(rest, image);
        if candidates(scan).contains(image) && image_of(scan.last()) != Some(image) {
            assert(from_rest.contains(image));
        }
        if exists|i: int| 0 <= i < scan.len() && image_of(#[trigger] scan[i]) == Some(image) {
            let i = choose|i: int|
                0 <= i < scan.len() && image_of(#[trigger] scan[i]) == Some(image);
            if i == scan.len() - 1 {
                assert(candidates(scan)[from_rest.len() as int] == image);
            } else {
                assert(image_of(rest[i]) == Some(image));
                let k = choose|k: int| 0 <= k < from_rest.len() && from_rest[k] == image;
                assert(candidates(scan)[k] == image);
            }
        }
    }
}

/// A listing holds exactly the images of the scan: each entry of the
/// listing comes from a scanned entry that is an image, and each scanned
/// entry that is an image is in the listing.
pub proof fn lemma_listing_membership(scan: Seq<ScannedModel>, image: EntryModel)
    ensures
        listing(scan).contains(image) <==> exists|i: int|
            0 <= i < scan.len() && image_of(#[trigger] scan[i]) == Some(image),
{
    lemma_listing_sorted_selection(scan);
    lemma_candidates_membership(scan, image);
    to_multiset_contains(listing(scan), image);
    to_multiset_contains(candidates(scan), image);
}

/// A listing is empty exactly if no scanned entry is an image; an empty
/// directory in particular has an empty listing.
pub proof fn lemma_listing_empty(scan: Seq<ScannedModel>)
    ensures
        listing(scan).len() == 0 <==> forall|i: int|
            0 <= i < scan.len() ==> image_of(#[trigger] scan[i]) is None,
{
    let images = listing(scan);
    if images.len() > 0 {
        lemma_listing_membership(scan, images[0]);
    }
    if exists|i: int| 0 <= i < scan.len() && image_of(#[trigger] scan[i]) is Some {
        let i = choose|i: int| 0 <= i < scan.len() && image_of(#[trigger] scan[i]) is Some;
        let image = image_of(scan[i])->0;
        lemma_listing_membership(scan, image);
    }
}

/// In a listing, an entry with the lesser path comes first, and of two
/// entries with the same path the one with the lesser size.
pub proof fn lemma_listing_positions(scan: Seq<ScannedModel>, i: int, j: int)
    requires
        0 <= i < listing(scan).len(),
        0 <= j < listing(scan).len(),
    ensures
        path_lt(listing(scan)[i].path, listing(scan)[j].path) ==> i < j,
        listing(scan)[i].path == listing(scan)[j].path && listing(scan)[i].size < listing(
            scan,
        )[j].size ==> i < j,
{
    lemma_listing_sorted_selection(scan);
    let images = listing(scan);
    if j < i {
        lemma_path_le_total_order(images[i].path, images[j].path, images[i].path);
    }
}

proof fn lemma_candidates_remove(scan: Seq<ScannedModel>, at: int)
    requires
        0 <= at < scan.len(),
    ensures
        candidates(scan).to_multiset() == match image_of(scan[at]) {
            Some(image) => candidates(scan.remove(at)).to_multiset().insert(image),
            None => candidates(scan.remove(at)).to_multiset(),
        },
    decreases scan.len(),
{
    broadcast use group_to_multiset_ensures;

    let rest = scan.drop_last();
    let without = scan.remove(at);
    if at < scan.len() - 1 {
        assert(without.drop_last() =~= rest.remove(at));
        lemma_candidates_remove(rest, at);
    }
    if let Some(image) = image_of(scan.last()) {
        assert(candidates(scan) =~= candidates(rest).push(image));
        if at < scan.len() - 1 {
            assert(candidates(without) =~= candidates(rest.remove(at)).push(image));
        }
    }
}

proof fn lemma_candidates_ignore_scan_order(a: Seq<ScannedModel>, b: Seq<ScannedModel>)
    requires
        a.to_multiset() == b.to_multiset(),
    ensures
        candidates(a).to_multiset() == candidates(b).to_multiset(),
    decreases a.len(),
{
    broadcast use group_to_multiset_ensures;

    to_multiset_len(a);
    to_multiset_len(b);
    if a.len() > 0 {
        let at = a.len() - 1;
        assert(a.to_multiset().contains(a[at]));
        let k = choose|k: int| 0 <= k < b.len() && b[k] == a[at];
        lemma_candidates_ignore_scan_order(a.remove(at), b.remove(k));
        lemma_candidates_remove(a, at);
        lemma_candidates_remove(b, k);
    }
}

/// A listing does not depend on the order in which the scan produced the
/// entries: two scans that hold the same entries give the same listing, and
/// so do two scans of a directory that has not changed.
pub proof fn lemma_listing_ignores_scan_order(a: Seq<ScannedModel>, b: Seq<ScannedModel>)
    requires
        a.to_multiset() == b.to_multiset(),
    ensures
        listing(a) == listing(b),
{
    lemma_candidates_ignore_scan_order(a, b);
    lemma_listing_sorted_selection(a);
    lemma_listing_unique(b, listing(a));
}

/// Two scans found the same: the same trouble with the directory, or the
/// same entries in whatever order.
pub open spec fn same_findings(first: ScanModel, second: ScanModel) -> bool {
    match (first, second) {
        (ScanModel::Entries(a), ScanModel::Entries(b)) => a.to_multiset() == b.to_multiset(),
        _ => first == second,
    }
}

/// Listing a directory again gives the same result, as long as the scan
/// finds the same.
pub proof fn lemma_listing_repeatable(directory: Seq<char>, first: ScanModel, second: ScanModel)
    requires
        same_findings(first, second),
    ensures
        listing_outcome(directory, first) == listing_outcome(directory, second),
{
    if let (ScanModel::Entries(a), ScanModel::Entries(b)) = (first, second) {
        lemma_listing_ignores_scan_order(a, b);
    }
}

/// The positions of the listed entries, in the order of the scan.
fn pick_images(entries: &Vec<ScannedEntry>) -> (picks: Vec<usize>)
    ensures
        picks_images(scan_models(entries@), picks@),
        images_at(scan_models(entries@), picks@) == candidates(scan_models(entries@)),
{
    let ghost scan = scan_models(entries@);
    let mut picks: Vec<usize> = Vec::new();
    let mut i: usize = 0;
    while i < entries.len()
        invariant
            scan == scan_models(entries@),
            i <= entries.len(),
            picks_images(scan, picks@),
            images_at(scan, picks@) == candidates(scan.take(i as int)),
        decreases entries.len() - i,
    {
        proof {
            scan.lemma_filter_map_take_succ(image_filter(), i as int);
        }
        if entries[i].is_image() {
            picks.push(i);
        }
        i = i + 1;
    }
    proof {
        assert(scan.take(i as int) =~= scan);
    }
    picks
}

/// The entries at `picks`, as images, in the order of `picks`.
fn collect_images(entries: &Vec<ScannedEntry>, picks: &Vec<usize>) -> (images: Vec<ImageEntry>)
    requires
        picks_images(scan_models(entries@), picks@),
    ensures
        entry_models(images@) == images_at(scan_models(entries@), picks@),
{
    let ghost scan = scan_models(entries@);
    let mut images: Vec<ImageEntry> = Vec::new();
    let mut k: usize = 0;
    while k < picks.len()
        invariant
            scan == scan_models(entries@),
            k <= picks.len(),
            picks_images(scan, picks@),
            entry_models(images@) =~= images_at(scan, picks@.take(k as int)),
        decreases picks.len() - k,
    {
        let at: usize = picks[k];
        let image = entries[at].listed();
        let ghost before = images@;
        images.push(image);
        proof {
            assert(entry_models(before.push(image)) =~= entry_models(before).push(image@));
        }
        k = k + 1;
    }
    images
}

/// Lists the images of a scanned directory.
///
/// `directory` is the path that was scanned, as the caller gave it, and
/// `scan` is what was found there. A path that is missing or is not a
/// directory is an `InvalidDirectory`; a directory that could not be opened
/// is a `ReadFailure` that carries the path. Otherwise the result holds each
/// scanned entry that is a regular file with readable metadata and an
/// extension of `jpg`, `jpeg` or `png` in any case, with its path and size,
/// ordered by path and then by size. A directory without such entries gives
/// an empty listing.
pub fn list_images(directory: &str, scan: &DirectoryScan) -> (result: Result<
    Vec<ImageEntry>,
    ErrorKind,
>)
    ensures
        match listing_outcome(directory@, scan@) {
            Ok(images) => result matches Ok(found) && entry_models(found@) == images,
            Err(error) => result matches Err(kind) && kind@ == error,
        },
        result matches Ok(found) ==> scan@ matches ScanModel::Entries(entries) && is_listing_of(
            entry_models(found@),
            entries,
        ),
{
    match scan {
        DirectoryScan::Missing => Err(ErrorKind::InvalidDirectory),
        DirectoryScan::NotDirectory => Err(ErrorKind::InvalidDirectory),
        DirectoryScan::Unreadable => Err(
            ErrorKind::ReadFailure { path: String::from_str(directory) },
        ),
        DirectoryScan::Entries(entries) => {
            let picks = pick_images(entries);
            let sorted = sort_picks(entries, picks);
            let found = collect_images(entries, &sorted);
            proof {
                lemma_listing_unique(scan_models(entries@), entry_models(found@));
            }
            Ok(found)
        },
    }
}

/// Lists the images of a scanned directory, as the command that the user
/// interface calls: what [`list_images`] gives, with an error as its text.
pub fn get_images(directory: &str, scan: &DirectoryScan) -> (result: Result<
    Vec<ImageEntry>,
    String,
>)
    ensures
        match listing_outcome(directory@, scan@) {
            Ok(images) => result matches Ok(found) && entry_models(found@) == images,
            Err(error) => result matches Err(text) && text@ == message_text(error),
        },
{
    match list_images(directory, scan) {
        Ok(found) => Ok(found),
        Err(kind) => Err(kind.message()),
    }
}

} // verus!
