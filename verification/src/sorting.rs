//! Putting the listed entries of a scan in listing order: a merge sort on
//! their positions in the scan.

use crate::entry::{entry_le, lemma_entry_le_total_order, ordered, EntryModel};
use crate::scan::{image_of, scan_models, ScannedEntry, ScannedModel};
use vstd::multiset::Multiset;
use vstd::prelude::*;
use vstd::seq_lib::{group_to_multiset_ensures, lemma_multiset_commutative};

verus! {

/// Every position in `picks` is that of a listed entry of `scan`.
pub open spec fn picks_images(scan: Seq<ScannedModel>, picks: Seq<usize>) -> bool {
    forall|k: int|
        0 <= k < picks.len() ==> (#[trigger] picks[k]) < scan.len() && image_of(
            scan[picks[k] as int],
        ) is Some
}

/// The image listed for the entry at position `at`.
pub open spec fn image_at(scan: Seq<ScannedModel>, at: usize) -> EntryModel {
    image_of(scan[at as int])->0
}

/// The images listed for the entries at `picks`, in the order of `picks`.
pub open spec fn images_at(scan: Seq<ScannedModel>, picks: Seq<usize>) -> Seq<EntryModel> {
    picks.map_values(|at: usize| image_at(scan, at))
}

/// The images listed for the entries at `picks`, without their order.
pub open spec fn image_bag(scan: Seq<ScannedModel>, picks: Seq<usize>) -> Multiset<EntryModel> {
    images_at(scan, picks).to_multiset()
}

proof fn lemma_images_at_push(scan: Seq<ScannedModel>, picks: Seq<usize>, at: usize)
    ensures
        images_at(scan, picks.push(at)) == images_at(scan, picks).push(image_at(scan, at)),
        image_bag(scan, picks.push(at)) == image_bag(scan, picks).insert(image_at(scan, at)),
{
    broadcast use group_to_multiset_ensures;

    assert(images_at(scan, picks.push(at)) =~= images_at(scan, picks).push(image_at(scan, at)));
}

proof fn lemma_images_at_concat(scan: Seq<ScannedModel>, a: Seq<usize>, b: Seq<usize>)
    ensures
        image_bag(scan, a + b) == image_bag(scan, a).add(image_bag(scan, b)),
{
    assert(images_at(scan, a + b) =~= images_at(scan, a) + images_at(scan, b));
    lemma_multiset_commutative(images_at(scan, a), images_at(scan, b));
}

/// Merges two runs of positions, each in listing order, into one.
fn merge(entries: &Vec<ScannedEntry>, left: &Vec<usize>, right: &Vec<usize>) -> (out: Vec<usize>)
    requires
        picks_images(scan_models(entries@), left@),
        picks_images(scan_models(entries@), right@),
        ordered(images_at(scan_models(entries@), left@)),
        ordered(images_at(scan_models(entries@), right@)),
    ensures
        picks_images(scan_models(entries@), out@),
        ordered(images_at(scan_models(entries@), out@)),
        image_bag(scan_models(entries@), out@) == image_bag(scan_models(entries@), left@).add(
            image_bag(scan_models(entries@), right@),
        ),
{
    let ghost scan = scan_models(entries@);
    let mut out: Vec<usize> = Vec::new();
    let mut i: usize = 0;
    let mut j: usize = 0;
    proof {
        broadcast use group_to_multiset_ensures;

        assert(image_bag(scan, out@) =~= image_bag(scan, left@.take(0)).add(
            image_bag(scan, right@.take(0)),
        ));
    }
    while i < left.len() || j < right.len()
        invariant
            scan == scan_models(entries@),
            i <= left.len(),
            j <= right.len(),
            picks_images(scan, left@),
            picks_images(scan, right@),
            ordered(images_at(scan, left@)),
            ordered(images_at(scan, right@)),
            picks_images(scan, out@),
            ordered(images_at(scan, out@)),
            image_bag(scan, out@) == image_bag(scan, left@.take(i as int)).add(
                image_bag(scan, right@.take(j as int)),
            ),
            forall|k: int|
                0 <= k < out.len() && i < left.len() ==> entry_le(
                    #[trigger] images_at(scan, out@)[k],
                    image_at(scan, left[i as int]),
                ),
            forall|k: int|
                0 <= k < out.len() && j < right.len() ==> entry_le(
                    #[trigger] images_at(scan, out@)[k],
                    image_at(scan, right[j as int]),
                ),
        decreases left.len() - i + right.len() - j,
    {
        let take_left: bool = if i == left.len() {
            false
        } else if j == right.len() {
            true
        } else {
            entries[left[i]].listed_before(&entries[right[j]])
        };
        let ghost before = out@;
        let next: usize = if take_left {
            left[i]
        } else {
            right[j]
        };
        out.push(next);
        proof {
            let taken = image_at(scan, next);
            let merged = images_at(scan, out@);
            lemma_images_at_push(scan, before, next);
            if take_left {
                assert(left@.take(i + 1) =~= left@.take(i as int).push(next));
                lemma_images_at_push(scan, left@.take(i as int), next);
                if i + 1 < left.len() {
                    let follows = image_at(scan, left[i + 1]);
                    assert(entry_le(
                        images_at(scan, left@)[i as int],
                        images_at(scan, left@)[i + 1],
                    ));
                    assert forall|k: int| 0 <= k < merged.len() implies entry_le(
                        #[trigger] merged[k],
                        follows,
                    ) by {
                        lemma_entry_le_total_order(merged[k], taken, follows);
                    }
                }
            } else {
                assert(right@.take(j + 1) =~= right@.take(j as int).push(next));
                lemma_images_at_push(scan, right@.take(j as int), next);
                if j + 1 < right.len() {
                    let follows = image_at(scan, right[j + 1]);
                    assert(entry_le(
                        images_at(scan, right@)[j as int],
                        images_at(scan, right@)[j + 1],
                    ));
                    assert forall|k: int| 0 <= k < merged.len() implies entry_le(
                        #[trigger] merged[k],
                        follows,
                    ) by {
                        lemma_entry_le_total_order(merged[k], taken, follows);
                    }
                }
                if i < left.len() {
                    lemma_entry_le_total_order(taken, image_at(scan, left[i as int]), taken);
                }
            }
        }
        if take_left {
            i = i + 1;
        } else {
            j = j + 1;
        }
    }
    proof {
        assert(left@.take(i as int) =~= left@);
        assert(right@.take(j as int) =~= right@);
    }
    out
}

/// The positions `picks[from..to]`, copied out.
fn copy_range(picks: &Vec<usize>, from: usize, to: usize) -> (out: Vec<usize>)
    requires
        from <= to <= picks.len(),
    ensures
        out@ == picks@.subrange(from as int, to as int),
{
    let mut out: Vec<usize> = Vec::new();
    let mut k: usize = from;
    while k < to
        invariant
            from <= k <= to <= picks.len(),
            out@ == picks@.subrange(from as int, k as int),
        decreases to - k,
    {
        out.push(picks[k]);
        k = k + 1;
    }
    out
}

/// Puts the positions of listed entries in listing order.
pub(crate) fn sort_picks(entries: &Vec<ScannedEntry>, picks: Vec<usize>) -> (out: Vec<usize>)
    requires
        picks_images(scan_models(entries@), picks@),
    ensures
        picks_images(scan_models(entries@), out@),
        ordered(images_at(scan_models(entries@), out@)),
        image_bag(scan_models(entries@), out@) == image_bag(scan_models(entries@), picks@),
    decreases picks.len(),
{
    let n: usize = picks.len();
    if n <= 1 {
        return picks;
    }
    let mid: usize = n / 2;
    let left = copy_range(&picks, 0, mid);
    let right = copy_range(&picks, mid, n);
    proof {
        assert(picks@ =~= left@ + right@);
        lemma_images_at_concat(scan_models(entries@), left@, right@);
    }
    let left = sort_picks(entries, left);
    let right = sort_picks(entries, right);
    merge(entries, &left, &right)
}

} // verus!
