//! Repairing flash banks that the source splits into adjacent sub-regions.

use vstd::prelude::*;
use crate::model::{map_view, opt_str_view, MemoryRegion, RegionKind, RegionView};
use crate::text::{copy_strings, find_from, find_str, has_prefix, starts_with, substring};

verus! {

/// A name given as absent reads as the empty name.
pub open spec fn name_or_empty(n: Option<Seq<char>>) -> Seq<char> {
    match n {
        Some(s) => s,
        None => Seq::empty(),
    }
}

/// The bank a region opens: the part of a non-volatile region's name before
/// the first `_REGION_`.
pub open spec fn bank_of(r: RegionView) -> Option<Seq<char>> {
    if r.kind == RegionKind::Nvm && r.name is Some {
        match find_from(r.name->0, "_REGION_"@, 0) {
            Some(k) => Some(r.name->0.subrange(0, k)),
            None => None,
        }
    } else {
        None
    }
}

/// Region `r` continues the group `g` of bank `bank`.
pub open spec fn extends(bank: Seq<char>, g: RegionView, r: RegionView) -> bool {
    r.kind == RegionKind::Nvm && has_prefix(name_or_empty(r.name), bank) && r.start == g.end
}

/// `g` grown to end where `r` ends.
pub open spec fn grown(g: RegionView, end: u64) -> RegionView {
    RegionView {
        kind: g.kind,
        name: g.name,
        start: g.start,
        end,
        access: g.access,
        cores: g.cores,
        is_alias: g.is_alias,
    }
}

/// `r` renamed to `bank`.
pub open spec fn renamed(r: RegionView, bank: Seq<char>) -> RegionView {
    RegionView {
        kind: r.kind,
        name: Some(bank),
        start: r.start,
        end: r.end,
        access: r.access,
        cores: r.cores,
        is_alias: r.is_alias,
    }
}

/// What the scan emits from position `i` on, with `group` the bank group
/// still open (its bank name and its region so far).
pub open spec fn coalesce_from(
    m: Seq<RegionView>,
    i: int,
    group: Option<(Seq<char>, RegionView)>,
) -> Seq<RegionView>
    decreases m.len() - i, 1int,
{
    if i < 0 || i >= m.len() {
        match group {
            Some((_, g)) => seq![g],
            None => Seq::empty(),
        }
    } else {
        let r = m[i];
        match group {
            Some((bank, g)) => if extends(bank, g, r) {
                coalesce_from(m, i + 1, Some((bank, grown(g, r.end))))
            } else {
                seq![g] + begin_group(m, i)
            },
            None => begin_group(m, i),
        }
    }
}

/// The scan at position `i` with no group open.
pub open spec fn begin_group(m: Seq<RegionView>, i: int) -> Seq<RegionView>
    decreases m.len() - i, 0int,
{
    if i < 0 || i >= m.len() {
        Seq::empty()
    } else {
        match bank_of(m[i]) {
            Some(b) => coalesce_from(m, i + 1, Some((b, renamed(m[i], b)))),
            None => seq![m[i]] + coalesce_from(m, i + 1, None),
        }
    }
}

/// The memory map after coalescing split banks.
pub open spec fn coalesce(m: Seq<RegionView>) -> Seq<RegionView> {
    coalesce_from(m, 0, None)
}

/// A copy of a region with the same value.
pub fn copy_region(r: &MemoryRegion) -> (c: MemoryRegion)
    ensures
        c.view() == r.view(),
{
    MemoryRegion {
        kind: r.kind,
        name: match &r.name {
            Some(n) => Some(n.clone()),
            None => None,
        },
        start: r.start,
        end: r.end,
        access: r.access,
        cores: copy_strings(&r.cores),
        is_alias: r.is_alias,
    }
}

fn region_bank(r: &MemoryRegion) -> (b: Option<String>)
    ensures
        opt_str_view(b) == bank_of(r.view()),
{
    match r.kind {
        RegionKind::Nvm => match &r.name {
            Some(n) => match find_str(n.as_str(), "_REGION_") {
                Some(k) => {
                    assert(k <= n@.len());
                    Some(substring(n.as_str(), 0, k))
                },
                None => None,
            },
            None => None,
        },
        RegionKind::Ram | RegionKind::Generic => None,
    }
}

spec fn group_view(g: Option<(String, MemoryRegion)>) -> Option<(Seq<char>, RegionView)> {
    match g {
        Some((b, r)) => Some((b@, r.view())),
        None => None,
    }
}

fn continues(bank: &String, g: &MemoryRegion, r: &MemoryRegion) -> (b: bool)
    ensures
        b == extends(bank@, g.view(), r.view()),
{
    match r.kind {
        RegionKind::Nvm => {
            let named = match &r.name {
                Some(n) => starts_with(n.as_str(), bank.as_str()),
                None => bank.as_str().unicode_len() == 0,
            };
            proof {
                if r.name is None && bank@.len() == 0 {
                    assert(name_or_empty(opt_str_view(r.name)).subrange(0, 0) =~= bank@);
                }
            }
            named && r.start == g.end
        },
        RegionKind::Ram | RegionKind::Generic => false,
    }
}

/// Merges each run of adjacent non-volatile regions that continue a
/// `<bank>_REGION_<n>` region into one region named `<bank>`.
pub fn merge_consecutive_flash_regions(memory_map: &mut Vec<MemoryRegion>)
    ensures
        map_view(final(memory_map)@) == coalesce(map_view(old(memory_map)@)),
{
    let ghost m = map_view(memory_map@);
    let mut output: Vec<MemoryRegion> = Vec::new();
    let mut group: Option<(String, MemoryRegion)> = None;
    let mut i: usize = 0;
    while i < memory_map.len()
        invariant
            m == map_view(memory_map@),
            i <= memory_map.len(),
            map_view(output@) + coalesce_from(m, i as int, group_view(group)) == coalesce(m),
        decreases memory_map.len() - i,
    {
        let ghost gv = group_view(group);
        let ghost before = map_view(output@);
        let r = &memory_map[i];
        let extended = match &group {
            Some((bank, g)) => continues(bank, g, r),
            None => false,
        };
        if extended {
            let (bank, mut g) = group.unwrap();
            let ghost g_before = g.view();
            g.end = r.end;
            group = Some((bank, g));
            assert(group_view(group) == Some((bank@, grown(g_before, m[i as int].end))));
        } else {
            assert(coalesce_from(m, i as int, gv) == (match gv {
                Some((_, g)) => seq![g],
                None => Seq::<RegionView>::empty(),
            }) + begin_group(m, i as int));
            match group {
                Some((_, g)) => {
                    output.push(g);
                },
                None => {},
            }
            match region_bank(r) {
                Some(b) => {
                    let mut g = copy_region(r);
                    g.name = Some(b.clone());
                    group = Some((b, g));
                    assert(group_view(group) == Some((b@, renamed(m[i as int], b@))));
                },
                None => {
                    output.push(copy_region(r));
                    group = None;
                },
            }
            assert(map_view(output@) =~= before + (match gv {
                Some((_, g)) => seq![g],
                None => Seq::<RegionView>::empty(),
            }) + (match bank_of(m[i as int]) {
                Some(_) => Seq::<RegionView>::empty(),
                None => seq![m[i as int]],
            }));
            assert(coalesce_from(m, i as int, gv) == map_view(output@).subrange(before.len() as int, map_view(output@).len() as int) + coalesce_from(m, i + 1, group_view(group)));
        }
        i += 1;
    }
    match group {
        Some((_, g)) => {
            output.push(g);
        },
        None => {},
    }
    assert(map_view(output@) =~= coalesce(m));
    *memory_map = output;
}

} // verus!
