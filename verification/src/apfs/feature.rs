//! Feature-flag compatibility checking.
//!
//! For a read-only tool the critical rule is: an unknown incompatible feature
//! means the on-disk format may differ in ways not understood, so reading is
//! refused. Unknown read-only-compatible / optional features are safe to ignore
//! for browsing. This module produces a structured report plus a hard error
//! when an unknown incompatible bit is set.
use vstd::prelude::*;

use super::nx::{NxSuperblock, NX_INCOMPAT_FUSION, NX_SUPPORTED_INCOMPAT_MASK};
use super::volume::{
    ApfsSuperblock, APFS_FS_UNENCRYPTED, APFS_INCOMPAT_CASE_INSENSITIVE, APFS_INCOMPAT_DATALESS_SNAPS,
    APFS_INCOMPAT_NORMALIZATION_INSENSITIVE, APFS_INCOMPAT_SEALED_VOLUME, APFS_SUPPORTED_INCOMPAT_MASK,
};
use crate::error::{unsupported, ErrorKind, Result};
use crate::text;

verus! {

/// How well a feature is supported.
#[derive(Debug, Clone, Copy, PartialEq, Eq, Structural)]
pub enum Support {
    /// Fully understood and interpreted.
    Supported,
    /// Recognized but only safe for metadata browsing (not full fidelity).
    BrowseOnly,
    /// Recognized and incompatible — recovery/browse may be wrong; refuse.
    UnsupportedIncompatible,
    /// Unknown incompatible bit — refuse.
    UnknownIncompatible,
}

/// One classified feature bit.
#[derive(Debug, Clone)]
pub struct FeatureNote {
    pub name: String,
    pub support: Support,
}

/// The result of classifying a container's and volume's features.
#[derive(Debug, Clone)]
pub struct FeatureReport {
    pub notes: Vec<FeatureNote>,
    pub warnings: Vec<String>,
}

/// The notes of a report as plain values.
pub open spec fn notes_view(r: FeatureReport) -> Seq<(Seq<char>, Support)> {
    r.notes@.map_values(|n: FeatureNote| (n.name@, n.support))
}

/// The warnings of a report as plain values.
pub open spec fn warnings_view(r: FeatureReport) -> Seq<Seq<char>> {
    r.warnings@.map_values(|w: String| w@)
}

/// `x` when `c` holds, else nothing.
pub open spec fn when<T>(c: bool, x: T) -> Seq<T> {
    if c {
        seq![x]
    } else {
        Seq::empty()
    }
}

pub open spec fn fusion_warning() -> Seq<char> {
    "Fusion container detected; tier-2 data is not resolved."@
}

pub open spec fn dataless_warning() -> Seq<char> {
    "Volume has dataless snapshots; some file data may be absent."@
}

pub open spec fn sealed_warning() -> Seq<char> {
    "Sealed volume: seal/integrity validation is not performed (browse only)."@
}

pub open spec fn encrypted_warning() -> Seq<char> {
    "Volume is encrypted; file data cannot be decrypted (use --raw-extents)."@
}

/// The notes classified for a volume's incompatible features and flags.
pub open spec fn volume_notes(incompat: u64, fs_flags: u64) -> Seq<(Seq<char>, Support)> {
    when(incompat & APFS_INCOMPAT_CASE_INSENSITIVE != 0, ("incompat_case_insensitive"@, Support::Supported))
        + when(
        incompat & APFS_INCOMPAT_NORMALIZATION_INSENSITIVE != 0,
        ("incompat_normalization_insensitive"@, Support::Supported),
    ) + when(incompat & APFS_INCOMPAT_DATALESS_SNAPS != 0, ("incompat_dataless_snaps"@, Support::BrowseOnly))
        + when(incompat & APFS_INCOMPAT_SEALED_VOLUME != 0, ("incompat_sealed_volume"@, Support::BrowseOnly))
        + when(fs_flags & APFS_FS_UNENCRYPTED == 0, ("volume_encrypted"@, Support::BrowseOnly))
}

/// The warnings raised for a volume's incompatible features and flags.
pub open spec fn volume_warnings(incompat: u64, fs_flags: u64) -> Seq<Seq<char>> {
    when(incompat & APFS_INCOMPAT_DATALESS_SNAPS != 0, dataless_warning()) + when(
        incompat & APFS_INCOMPAT_SEALED_VOLUME != 0,
        sealed_warning(),
    ) + when(fs_flags & APFS_FS_UNENCRYPTED == 0, encrypted_warning())
}

impl FeatureReport {
    pub fn new() -> (r: FeatureReport)
        ensures
            r.notes@.len() == 0,
            r.warnings@.len() == 0,
    {
        FeatureReport { notes: Vec::new(), warnings: Vec::new() }
    }

    fn note(&mut self, name: &str, support: Support)
        ensures
            notes_view(*final(self)) == notes_view(*old(self)).push((name@, support)),
            final(self).warnings == old(self).warnings,
    {
        self.notes.push(FeatureNote { name: String::from_str(name), support });
        assert(notes_view(*self) =~= notes_view(*old(self)).push((name@, support)));
    }

    fn warn(&mut self, w: &str)
        ensures
            warnings_view(*final(self)) == warnings_view(*old(self)).push(w@),
            final(self).notes == old(self).notes,
    {
        self.warnings.push(String::from_str(w));
        assert(warnings_view(*self) =~= warnings_view(*old(self)).push(w@));
    }
}

/// Classify a container superblock's incompatible features. Returns an error
/// if an unknown incompatible bit is set (fail-safe).
pub fn check_container(nx: &NxSuperblock) -> (r: Result<FeatureReport>)
    ensures
        match r {
            Ok(rep) => {
                &&& nx.incompatible_features & !NX_SUPPORTED_INCOMPAT_MASK == 0
                &&& notes_view(rep) == when(
                    nx.incompatible_features & NX_INCOMPAT_FUSION != 0,
                    ("nx_incompat_fusion"@, Support::UnsupportedIncompatible),
                )
                &&& warnings_view(rep) == when(nx.incompatible_features & NX_INCOMPAT_FUSION != 0, fusion_warning())
            },
            Err(e) => nx.incompatible_features & !NX_SUPPORTED_INCOMPAT_MASK != 0 && e.kind
                == ErrorKind::UnsupportedFeature,
        },
{
    let mut report = FeatureReport::new();
    assert(notes_view(report) =~= Seq::empty());
    assert(warnings_view(report) =~= Seq::empty());
    if nx.incompatible_features & NX_INCOMPAT_FUSION != 0 {
        // Fusion (tiered) containers are a documented non-goal.
        report.note("nx_incompat_fusion", Support::UnsupportedIncompatible);
        report.warn("Fusion container detected; tier-2 data is not resolved.");
    }
    assert(notes_view(report) =~= when(
        nx.incompatible_features & NX_INCOMPAT_FUSION != 0,
        ("nx_incompat_fusion"@, Support::UnsupportedIncompatible),
    ));
    assert(warnings_view(report) =~= when(nx.incompatible_features & NX_INCOMPAT_FUSION != 0, fusion_warning()));

    let unknown = nx.incompatible_features & !NX_SUPPORTED_INCOMPAT_MASK;
    if unknown != 0 {
        let mut m = String::from_str("container has unknown incompatible feature bits ");
        text::push_str(&mut m, text::hex_prefixed(unknown).as_str());
        text::push_str(&mut m, "; refusing to read");
        return Err(unsupported(m));
    }
    Ok(report)
}

/// Classify a volume superblock's incompatible features.
pub fn check_volume(apsb: &ApfsSuperblock) -> (r: Result<FeatureReport>)
    ensures
        match r {
            Ok(rep) => {
                &&& apsb.incompatible_features & !APFS_SUPPORTED_INCOMPAT_MASK == 0
                &&& notes_view(rep) == volume_notes(apsb.incompatible_features, apsb.fs_flags)
                &&& warnings_view(rep) == volume_warnings(apsb.incompatible_features, apsb.fs_flags)
            },
            Err(e) => apsb.incompatible_features & !APFS_SUPPORTED_INCOMPAT_MASK != 0 && e.kind
                == ErrorKind::UnsupportedFeature,
        },
{
    let mut report = FeatureReport::new();
    let ghost inc = apsb.incompatible_features;
    let ghost fl = apsb.fs_flags;
    assert(notes_view(report) =~= Seq::empty());
    assert(warnings_view(report) =~= Seq::empty());

    if apsb.is_case_insensitive() {
        report.note("incompat_case_insensitive", Support::Supported);
    }
    if apsb.is_normalization_insensitive() {
        report.note("incompat_normalization_insensitive", Support::Supported);
    }
    if apsb.incompatible_features & APFS_INCOMPAT_DATALESS_SNAPS != 0 {
        report.note("incompat_dataless_snaps", Support::BrowseOnly);
        report.warn("Volume has dataless snapshots; some file data may be absent.");
    }
    if apsb.incompatible_features & APFS_INCOMPAT_SEALED_VOLUME != 0 {
        report.note("incompat_sealed_volume", Support::BrowseOnly);
        report.warn("Sealed volume: seal/integrity validation is not performed (browse only).");
    }
    if apsb.is_encrypted() {
        report.note("volume_encrypted", Support::BrowseOnly);
        report.warn("Volume is encrypted; file data cannot be decrypted (use --raw-extents).");
    }
    assert(notes_view(report) =~= volume_notes(inc, fl));
    assert(warnings_view(report) =~= volume_warnings(inc, fl));

    let unknown = apsb.incompatible_features & !APFS_SUPPORTED_INCOMPAT_MASK;
    if unknown != 0 {
        let mut m = String::from_str("volume `");
        text::push_str(&mut m, apsb.volname.as_str());
        text::push_str(&mut m, "` has unknown incompatible feature bits ");
        text::push_str(&mut m, text::hex_prefixed(unknown).as_str());
        text::push_str(&mut m, "; refusing to read");
        return Err(unsupported(m));
    }
    Ok(report)
}

} // verus!
