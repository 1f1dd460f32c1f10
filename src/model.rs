//! The data that reconciliation reads and writes.

use vstd::prelude::*;

verus! {

/// What a source memory block is.
#[derive(Clone, Copy, Debug, PartialEq, Eq, Structural)]
pub enum MemoryKind {
    Flash,
    Ram,
    Eeprom,
}

/// Access flags a source descriptor may carry.
#[derive(Clone, Copy, Debug, PartialEq, Eq, Structural)]
pub struct Access {
    pub read: bool,
    pub write: bool,
    pub execute: bool,
}

/// One contiguous memory block as the source describes it.
#[derive(Debug)]
pub struct MemoryDescriptor {
    pub name: String,
    pub address: u64,
    pub size: u64,
    pub kind: MemoryKind,
    pub access: Option<Access>,
}

/// Access flags of an output region.
#[derive(Clone, Copy, Debug, PartialEq, Eq, Structural)]
pub struct RegionAccess {
    pub read: bool,
    pub write: bool,
    pub execute: bool,
    pub boot: bool,
}

/// The kinds of region of a memory map. Reconciliation builds only `Nvm`
/// and `Ram` regions; `Generic` regions of a baseline map are carried as
/// they are.
#[derive(Clone, Copy, Debug, PartialEq, Eq, Structural)]
pub enum RegionKind {
    Nvm,
    Ram,
    Generic,
}

/// One region of a chip's memory map, covering `[start, end)`.
/// `is_alias` is only meaningful for non-volatile regions.
#[derive(Debug)]
pub struct MemoryRegion {
    pub kind: RegionKind,
    pub name: Option<String>,
    pub start: u64,
    pub end: u64,
    pub access: Option<RegionAccess>,
    pub cores: Vec<String>,
    pub is_alias: bool,
}

/// The mathematical value of a [`MemoryRegion`].
pub struct RegionView {
    pub kind: RegionKind,
    pub name: Option<Seq<char>>,
    pub start: u64,
    pub end: u64,
    pub access: Option<RegionAccess>,
    pub cores: Seq<Seq<char>>,
    pub is_alias: bool,
}

pub open spec fn opt_str_view(o: Option<String>) -> Option<Seq<char>> {
    match o {
        Some(s) => Some(s@),
        None => None,
    }
}

impl MemoryRegion {
    pub open spec fn view(&self) -> RegionView {
        RegionView {
            kind: self.kind,
            name: opt_str_view(self.name),
            start: self.start,
            end: self.end,
            access: self.access,
            cores: self.cores.deep_view(),
            is_alias: self.is_alias,
        }
    }
}

/// The views of a sequence of regions.
pub open spec fn map_view(m: Seq<MemoryRegion>) -> Seq<RegionView> {
    m.map_values(|r: MemoryRegion| r.view())
}

/// One chip variant of the baseline dataset.
///
/// `baseline_index` is the position the variant had in the document it was
/// loaded from; reconciliation carries it through unchanged so that a caller
/// can write back the parts of the record that are not modelled here.
#[derive(Debug)]
pub struct ChipVariant {
    pub name: String,
    pub cores: Vec<String>,
    pub memory_map: Vec<MemoryRegion>,
    pub package_variants: Vec<String>,
    pub baseline_index: usize,
}

/// The mathematical value of a [`ChipVariant`].
pub struct VariantView {
    pub name: Seq<char>,
    pub cores: Seq<Seq<char>>,
    pub map: Seq<RegionView>,
    pub packages: Seq<Seq<char>>,
    pub baseline_index: usize,
}

impl ChipVariant {
    pub open spec fn view(&self) -> VariantView {
        VariantView {
            name: self.name@,
            cores: self.cores.deep_view(),
            map: map_view(self.memory_map@),
            packages: self.package_variants.deep_view(),
            baseline_index: self.baseline_index,
        }
    }
}

/// The views of a sequence of variants.
pub open spec fn variants_view(vs: Seq<ChipVariant>) -> Seq<VariantView> {
    vs.map_values(|v: ChipVariant| v.view())
}

/// The names of a sequence of variant views.
pub open spec fn view_names(vs: Seq<VariantView>) -> Seq<Seq<char>> {
    vs.map_values(|v: VariantView| v.name)
}

/// All variants of one chip family.
#[derive(Debug)]
pub struct FamilyDataset {
    pub family_name: String,
    pub variants: Vec<ChipVariant>,
}

/// The variant names of a family, in order.
pub open spec fn variant_names(vs: Seq<ChipVariant>) -> Seq<Seq<char>> {
    vs.map_values(|v: ChipVariant| v.name@)
}

/// One chip of the per-chip descriptor source: its canonical name, its
/// package names and the memory descriptors of its first bank.
#[derive(Debug)]
pub struct SourceChip {
    pub name: String,
    pub packages: Vec<String>,
    pub memories: Vec<MemoryDescriptor>,
}

/// What a reconciliation diagnostic reports.
#[derive(Clone, Copy, Debug, PartialEq, Eq, Structural)]
pub enum DiagnosticKind {
    /// A baseline variant that no source chip answers to (suffix-free name).
    MissingFromSource,
    /// A source chip or device that has no baseline variant.
    MissingFromBaseline,
    /// A package variant removed because no source chip answers to it.
    RemovedUnknown,
}

/// A non-fatal finding of reconciliation, with the name it concerns.
#[derive(Debug)]
pub struct Diagnostic {
    pub kind: DiagnosticKind,
    pub name: String,
}

/// The views of a sequence of diagnostics.
pub open spec fn diagnostics_view(d: Seq<Diagnostic>) -> Seq<(DiagnosticKind, Seq<char>)> {
    d.map_values(|x: Diagnostic| (x.kind, x.name@))
}

/// Each of `names` reported as `kind`.
pub open spec fn tagged(kind: DiagnosticKind, names: Seq<Seq<char>>) -> Seq<(DiagnosticKind, Seq<char>)> {
    names.map_values(|n: Seq<char>| (kind, n))
}

/// Per-family policy: device-name prefixes to admit and to refuse, and
/// whether the family's devices carry no per-package variants (their
/// variant is then named after the device id).
#[derive(Debug)]
pub struct FamilyConfig {
    pub allow_prefixes: Option<Vec<String>>,
    pub deny_prefixes: Option<Vec<String>>,
    pub single_variant: bool,
}

} // verus!
