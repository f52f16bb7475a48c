//! What a scan of a directory hands to the listing: plain facts about the
//! directory and about each of its entries, gathered by the caller.

use crate::entry::{entry_le, EntryModel, ImageEntry};
use crate::extension::{has_image_extension, image_path};
use crate::order::{rank_paths, Rank};
use vstd::pervasive::unreached;
use vstd::prelude::*;

verus! {

/// What was learned about one entry of a directory.
#[derive(Clone, Debug)]
pub enum ScannedEntry {
    /// The entry could not be inspected at all.
    Unreadable,
    /// The entry was inspected.
    Found {
        /// The entry's full path, in text form. A path that is not valid
        /// UTF-8 is given in its lossy rendering, in which an extension that
        /// was not text is not a recognised one.
        path: String,
        /// Whether the path leads to a regular file.
        is_file: bool,
        /// The size in bytes from the entry's metadata; `None` where the
        /// metadata could not be retrieved.
        size: Option<u64>,
    },
}

/// What a [`ScannedEntry`] stands for.
pub ghost enum ScannedModel {
    Unreadable,
    Found { path: Seq<char>, is_file: bool, size: Option<u64> },
}

impl View for ScannedEntry {
    type V = ScannedModel;

    open spec fn view(&self) -> ScannedModel {
        match self {
            ScannedEntry::Unreadable => ScannedModel::Unreadable,
            ScannedEntry::Found { path, is_file, size } => ScannedModel::Found {
                path: path@,
                is_file: *is_file,
                size: *size,
            },
        }
    }
}

/// What was learned about a directory.
#[derive(Clone, Debug)]
pub enum DirectoryScan {
    /// Nothing exists at the path.
    Missing,
    /// Something exists at the path, and it is not a directory.
    NotDirectory,
    /// The directory exists and could not be opened for listing.
    Unreadable,
    /// The directory was read: one item for each of its entries, in the
    /// order in which the platform produced them.
    Entries(Vec<ScannedEntry>),
}

/// What a [`DirectoryScan`] stands for.
pub ghost enum ScanModel {
    Missing,
    NotDirectory,
    Unreadable,
    Entries(Seq<ScannedModel>),
}

/// The models of a run of scanned entries, in the same order.
pub open spec fn scan_models(entries: Seq<ScannedEntry>) -> Seq<ScannedModel> {
    entries.map_values(|e: ScannedEntry| e@)
}

impl View for DirectoryScan {
    type V = ScanModel;

    open spec fn view(&self) -> ScanModel {
        match self {
            DirectoryScan::Missing => ScanModel::Missing,
            DirectoryScan::NotDirectory => ScanModel::NotDirectory,
            DirectoryScan::Unreadable => ScanModel::Unreadable,
            DirectoryScan::Entries(entries) => ScanModel::Entries(scan_models(entries@)),
        }
    }
}

/// The image that a scanned entry is listed as, if it is listed: a regular
/// file whose metadata was read and whose extension is a recognised one.
/// Every other entry is passed over.
pub open spec fn image_of(e: ScannedModel) -> Option<EntryModel> {
    match e {
        ScannedModel::Unreadable => None,
        ScannedModel::Found { path, is_file, size } => match size {
            Some(bytes) if is_file && image_path(path) => Some(
                EntryModel { path, size: bytes as nat },
            ),
            _ => None,
        },
    }
}

impl ScannedEntry {
    /// Whether this entry is listed.
    pub fn is_image(&self) -> (r: bool)
        ensures
            r == image_of(self@) is Some,
    {
        match self {
            ScannedEntry::Unreadable => false,
            ScannedEntry::Found { path, is_file, size } => *is_file && size.is_some()
                && has_image_extension(path.as_str()),
        }
    }

    /// The image that a listed entry is listed as.
    pub(crate) fn listed(&self) -> (entry: ImageEntry)
        requires
            image_of(self@) is Some,
        ensures
            image_of(self@) == Some(entry@),
    {
        match self {
            ScannedEntry::Found { path, size: Some(bytes), .. } => ImageEntry {
                path: path.clone(),
                size: *bytes,
            },
            _ => unreached(),
        }
    }

    /// Whether one listed entry is listed at or before another.
    pub(crate) fn listed_before(&self, other: &ScannedEntry) -> (r: bool)
        requires
            image_of(self@) is Some,
            image_of(other@) is Some,
        ensures
            r == entry_le(image_of(self@)->0, image_of(other@)->0),
    {
        match (self, other) {
            (
                ScannedEntry::Found { path: a, size: Some(m), .. },
                ScannedEntry::Found { path: b, size: Some(n), .. },
            ) => match rank_paths(a.as_str(), b.as_str()) {
                Rank::Before => true,
                Rank::Same => *m <= *n,
                Rank::After => false,
            },
            _ => unreached(),
        }
    }
}

} // verus!
