//! Turning one source memory descriptor into at most one output region.

use vstd::prelude::*;
use crate::model::{Access, MemoryDescriptor, MemoryKind, MemoryRegion, RegionAccess, RegionKind, RegionView};
use crate::text::{has_prefix, starts_with, str_eq, copy_strings};

verus! {

/// The secondary SRAM banks of the dual-core wireless family, which the
/// default core cannot reach.
pub open spec fn is_secondary_sram(name: Seq<char>) -> bool {
    name == "SRAM2A"@ || name == "SRAM2B"@ || name == "SRAM2A_ICODE"@ || name == "SRAM2B_ICODE"@
}

/// The variant belongs to the dual-core wireless family.
pub open spec fn is_wireless_variant(variant: Seq<char>) -> bool {
    has_prefix(variant, "STM32WB"@)
}

/// Access of a one-time-programmable flash area.
pub open spec fn otp_access() -> RegionAccess {
    RegionAccess { read: true, write: false, execute: false, boot: false }
}

/// Access of an ordinary flash area.
pub open spec fn flash_access() -> RegionAccess {
    RegionAccess { read: true, write: false, execute: true, boot: true }
}

/// Access of a RAM area: the descriptor's own flags, or full access.
pub open spec fn ram_access(a: Option<Access>) -> RegionAccess {
    match a {
        Some(a) => RegionAccess { read: a.read, write: a.write, execute: a.execute, boot: false },
        None => RegionAccess { read: true, write: true, execute: true, boot: false },
    }
}

/// The region built from descriptor `d` for variant `variant` whose cores
/// are `cores`, or `None` where the descriptor yields no region.
pub open spec fn built_region(d: MemoryDescriptor, variant: Seq<char>, cores: Seq<Seq<char>>) -> Option<RegionView> {
    let region = |kind: RegionKind, access: RegionAccess| RegionView {
        kind,
        name: Some(d.name@),
        start: d.address,
        end: (d.address + d.size) as u64,
        access: Some(access),
        cores,
        is_alias: false,
    };
    match d.kind {
        MemoryKind::Flash => if d.name@ == "OTP"@ {
            Some(region(RegionKind::Nvm, otp_access()))
        } else {
            Some(region(RegionKind::Nvm, flash_access()))
        },
        MemoryKind::Ram => if is_secondary_sram(d.name@) && is_wireless_variant(variant) {
            None
        } else {
            Some(region(RegionKind::Ram, ram_access(d.access)))
        },
        MemoryKind::Eeprom => None,
    }
}

/// The descriptor's range fits in the address space.
pub open spec fn descriptor_fits(d: MemoryDescriptor) -> bool {
    d.address + d.size <= u64::MAX
}

fn is_secondary_sram_name(name: &str) -> (r: bool)
    ensures
        r == is_secondary_sram(name@),
{
    str_eq(name, "SRAM2A") || str_eq(name, "SRAM2B") || str_eq(name, "SRAM2A_ICODE") || str_eq(
        name,
        "SRAM2B_ICODE",
    )
}

/// Builds the region of one descriptor for a variant of the given cores.
pub fn build_region(d: &MemoryDescriptor, variant: &str, cores: &Vec<String>) -> (r: Option<MemoryRegion>)
    requires
        descriptor_fits(*d),
    ensures
        match r {
            Some(reg) => built_region(*d, variant@, cores.deep_view()) == Some(reg.view()),
            None => built_region(*d, variant@, cores.deep_view()) is None,
        },
{
    let end = d.address + d.size;
    let (kind, access) = match d.kind {
        MemoryKind::Flash => {
            if str_eq(d.name.as_str(), "OTP") {
                (RegionKind::Nvm, RegionAccess { read: true, write: false, execute: false, boot: false })
            } else {
                (RegionKind::Nvm, RegionAccess { read: true, write: false, execute: true, boot: true })
            }
        },
        MemoryKind::Ram => {
            if is_secondary_sram_name(d.name.as_str()) && starts_with(variant, "STM32WB") {
                return None;
            }
            let access = match d.access {
                Some(a) => RegionAccess { read: a.read, write: a.write, execute: a.execute, boot: false },
                None => RegionAccess { read: true, write: true, execute: true, boot: false },
            };
            (RegionKind::Ram, access)
        },
        MemoryKind::Eeprom => {
            return None;
        },
    };
    Some(
        MemoryRegion {
            kind,
            name: Some(d.name.clone()),
            start: d.address,
            end,
            access: Some(access),
            cores: copy_strings(cores),
            is_alias: false,
        },
    )
}

} // verus!
