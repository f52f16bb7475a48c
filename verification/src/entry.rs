//! One listed image file, and the order in which a listing presents them.

use crate::order::{lemma_path_le_total_order, path_le, rank_paths, Rank};
use vstd::prelude::*;

verus! {

/// One image file found in a directory.
///
/// The derived comparisons follow the order of the fields: by `path`, then
/// by `size`, which is the relation [`entry_le`] states over the model.
#[derive(Clone, Debug, PartialEq, Eq, PartialOrd, Ord)]
pub struct ImageEntry {
    /// The file's path, in text form.
    pub path: String,
    /// The file's size in bytes.
    pub size: u64,
}

/// What an [`ImageEntry`] stands for.
pub ghost struct EntryModel {
    pub path: Seq<char>,
    pub size: nat,
}

impl View for ImageEntry {
    type V = EntryModel;

    open spec fn view(&self) -> EntryModel {
        EntryModel { path: self.path@, size: self.size as nat }
    }
}

/// The models of a run of entries, in the same order.
pub open spec fn entry_models(entries: Seq<ImageEntry>) -> Seq<EntryModel> {
    entries.map_values(|e: ImageEntry| e@)
}

/// `a` is listed at or before `b`: the paths decide, and between equal paths
/// the smaller size comes first.
pub open spec fn entry_le(a: EntryModel, b: EntryModel) -> bool {
    if a.path == b.path {
        a.size <= b.size
    } else {
        path_le(a.path, b.path)
    }
}

/// Every entry of `s` is listed at or before each entry that follows it.
pub open spec fn ordered(s: Seq<EntryModel>) -> bool {
    forall|i: int, j: int| 0 <= i < j < s.len() ==> entry_le(#[trigger] s[i], #[trigger] s[j])
}

/// The listing order is a total order on entries.
pub proof fn lemma_entry_le_total_order(a: EntryModel, b: EntryModel, c: EntryModel)
    ensures
        entry_le(a, a),
        entry_le(a, b) && entry_le(b, a) ==> a == b,
        entry_le(a, b) && entry_le(b, c) ==> entry_le(a, c),
        entry_le(a, b) || entry_le(b, a),
{
    lemma_path_le_total_order(a.path, b.path, c.path);
    lemma_path_le_total_order(b.path, c.path, a.path);
    lemma_path_le_total_order(c.path, a.path, b.path);
    lemma_path_le_total_order(a.path, c.path, b.path);
}

impl ImageEntry {
    /// Whether `self` is listed at or before `other`.
    pub fn precedes(&self, other: &ImageEntry) -> (r: bool)
        ensures
            r == entry_le(self@, other@),
    {
        match rank_paths(self.path.as_str(), other.path.as_str()) {
            Rank::Before => true,
            Rank::Same => self.size <= other.size,
            Rank::After => false,
        }
    }
}

} // verus!
