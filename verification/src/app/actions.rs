//! What a location does with a request.

use crate::template::{SegmentV, Template};
use vstd::prelude::*;

verus! {

/// How a request path maps to a file.
#[derive(Debug)]
pub enum StaticKind {
    /// The whole path is looked up below the root.
    Root,
    /// What follows the location's prefix is looked up below the root.
    Alias { prefix: String },
}

/// Model of a [`StaticKind`].
pub enum StaticKindV {
    Root,
    Alias { prefix: Seq<char> },
}

impl View for StaticKind {
    type V = StaticKindV;

    open spec fn view(&self) -> StaticKindV {
        match self {
            StaticKind::Root => StaticKindV::Root,
            StaticKind::Alias { prefix } => StaticKindV::Alias { prefix: prefix@ },
        }
    }
}

#[derive(Debug)]
pub enum TryFilesEntryRt {
    Path(Template),
    Status(u16),
}

/// Model of a [`TryFilesEntryRt`].
pub enum TryFilesEntryRtV {
    Path(Seq<SegmentV>),
    Status(u16),
}

impl View for TryFilesEntryRt {
    type V = TryFilesEntryRtV;

    open spec fn view(&self) -> TryFilesEntryRtV {
        match self {
            TryFilesEntryRt::Path(t) => TryFilesEntryRtV::Path(t@),
            TryFilesEntryRt::Status(n) => TryFilesEntryRtV::Status(*n),
        }
    }
}

} // verus!
