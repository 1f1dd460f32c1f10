//! Matching source chips against the baseline and rewriting its variants.

use vstd::prelude::*;
use crate::coalesce::{bank_of, begin_group, coalesce, coalesce_from, grown, renamed, merge_consecutive_flash_regions};
use crate::model::{RegionKind, variants_view, view_names, VariantView, diagnostics_view, map_view, tagged, variant_names, ChipVariant, Diagnostic, DiagnosticKind, FamilyConfig, FamilyDataset, MemoryDescriptor, MemoryRegion, RegionView, SourceChip};
use crate::region::{build_region, built_region, descriptor_fits, is_secondary_sram, is_wireless_variant};
use crate::naming::{derive_names, full_name, Device};
use crate::ordering::{sort_by_address, sorted_by_address};
use crate::text::{copy_strings, has_prefix, starts_with, str_eq};

verus! {

/// Position of the first variant named `name`.
pub open spec fn first_variant(vs: Seq<ChipVariant>, name: Seq<char>) -> Option<int>
    decreases vs.len(),
{
    if vs.len() == 0 {
        None
    } else {
        match first_variant(vs.drop_last(), name) {
            Some(k) => Some(k),
            None => if vs.last().name@ == name {
                Some(vs.len() - 1)
            } else {
                None
            },
        }
    }
}

pub proof fn lemma_first_variant(vs: Seq<ChipVariant>, name: Seq<char>)
    ensures
        match first_variant(vs, name) {
            Some(k) => 0 <= k < vs.len() && vs[k].name@ == name && forall|j: int|
                0 <= j < k ==> vs[j].name@ != name,
            None => forall|j: int| 0 <= j < vs.len() ==> vs[j].name@ != name,
        },
    decreases vs.len(),
{
    if vs.len() > 0 {
        lemma_first_variant(vs.drop_last(), name);
        assert(forall|j: int| 0 <= j < vs.len() - 1 ==> vs.drop_last()[j] == vs[j]);
    }
}

/// Position of the first variant view named `name`.
pub open spec fn first_named(vs: Seq<VariantView>, name: Seq<char>) -> Option<int>
    decreases vs.len(),
{
    if vs.len() == 0 {
        None
    } else {
        match first_named(vs.drop_last(), name) {
            Some(k) => Some(k),
            None => if vs.last().name == name {
                Some(vs.len() - 1)
            } else {
                None
            },
        }
    }
}

/// Looking a variant up by name agrees with looking up its view.
pub proof fn lemma_first_named(vs: Seq<ChipVariant>, name: Seq<char>)
    ensures
        first_variant(vs, name) == first_named(variants_view(vs), name),
        variant_names(vs) == view_names(variants_view(vs)),
    decreases vs.len(),
{
    assert(variant_names(vs) =~= view_names(variants_view(vs)));
    if vs.len() > 0 {
        lemma_first_named(vs.drop_last(), name);
        assert(variants_view(vs.drop_last()) =~= variants_view(vs).drop_last());
    }
}

/// `vs` with the first variant named `variant` renamed to `out_name` and its
/// map rebuilt from `ds`; unchanged where there is none.
pub open spec fn rebuilt(vs: Seq<VariantView>, variant: Seq<char>, out_name: Seq<char>, ds: Seq<MemoryDescriptor>) -> Seq<VariantView> {
    match first_named(vs, variant) {
        Some(k) => vs.update(
            k,
            VariantView {
                name: out_name,
                map: coalesce(build_map(ds, variant, vs[k].cores)),
                ..vs[k]
            },
        ),
        None => vs,
    }
}

/// `vs` with `pkgs` appended to the package variants of the first variant
/// named `device`; unchanged where there is none.
pub open spec fn attached(vs: Seq<VariantView>, device: Seq<char>, pkgs: Seq<Seq<char>>) -> Seq<VariantView> {
    match first_named(vs, device) {
        Some(k) => vs.update(k, VariantView { packages: vs[k].packages + pkgs, ..vs[k] }),
        None => vs,
    }
}

/// `vs` with each variant name kept only at its first occurrence.
pub open spec fn dedup_views(vs: Seq<VariantView>) -> Seq<VariantView>
    decreases vs.len(),
{
    if vs.len() == 0 {
        Seq::empty()
    } else {
        let d = dedup_views(vs.drop_last());
        if view_names(d).contains(vs.last().name) {
            d
        } else {
            d.push(vs.last())
        }
    }
}

/// `vs` with the package variants of each variant deduplicated.
pub open spec fn packages_deduped(vs: Seq<VariantView>) -> Seq<VariantView> {
    vs.map_values(|v: VariantView| VariantView { packages: dedup(v.packages), ..v })
}

/// `vs` with the package variants of each variant that no source chip
/// answers to removed.
pub open spec fn packages_known(vs: Seq<VariantView>, chips: Seq<SourceChip>) -> Seq<VariantView> {
    vs.map_values(|v: VariantView| VariantView { packages: keep_known(v.packages, chips), ..v })
}

/// The package variants that no source chip answers to, variant by variant.
pub open spec fn unknown_of_views(vs: Seq<VariantView>, chips: Seq<SourceChip>) -> Seq<Seq<char>>
    decreases vs.len(),
{
    if vs.len() == 0 {
        Seq::empty()
    } else {
        unknown_of_views(vs.drop_last(), chips) + drop_known(vs.last().packages, chips)
    }
}

/// The name a baseline variant named `n` takes: that of the first source
/// chip that answers to `n` without packaging suffix, else `n`.
pub open spec fn normalized(n: Seq<char>, chips: Seq<SourceChip>) -> Seq<char> {
    match first_chip(chips, trim_packaging(n)) {
        Some(c) => chips[c].name@,
        None => n,
    }
}

/// `vs` with every variant given its normalized name.
pub open spec fn renamed_views(vs: Seq<VariantView>, chips: Seq<SourceChip>) -> Seq<VariantView> {
    vs.map_values(|v: VariantView| VariantView { name: normalized(v.name, chips), ..v })
}

/// Deduplicating variants agrees with deduplicating their views.
pub proof fn lemma_dedup_views(vs: Seq<ChipVariant>)
    ensures
        variants_view(dedup_variants(vs)) == dedup_views(variants_view(vs)),
    decreases vs.len(),
{
    if vs.len() > 0 {
        lemma_dedup_views(vs.drop_last());
        assert(variants_view(vs.drop_last()) =~= variants_view(vs).drop_last());
        let d = dedup_variants(vs.drop_last());
        lemma_first_named(d, vs.last().name@);
        assert(variants_view(d.push(vs.last())) =~= variants_view(d).push(vs.last().view()));
    }
}

/// The unknown package variants of variants agree with those of their views.
pub proof fn lemma_unknown_views(vs: Seq<ChipVariant>, chips: Seq<SourceChip>)
    ensures
        unknown_packages(vs, chips) == unknown_of_views(variants_view(vs), chips),
    decreases vs.len(),
{
    if vs.len() > 0 {
        lemma_unknown_views(vs.drop_last(), chips);
        assert(variants_view(vs.drop_last()) =~= variants_view(vs).drop_last());
    }
}

/// Finds the first variant of the family with the given name.
pub fn find_variant(vs: &Vec<ChipVariant>, name: &str) -> (r: Option<usize>)
    ensures
        match r {
            Some(k) => first_variant(vs@, name@) == Some(k as int) && k < vs@.len()
                && vs@[k as int].name@ == name@,
            None => first_variant(vs@, name@) is None,
        },
{
    proof {
        lemma_first_variant(vs@, name@);
    }
    let mut k: usize = 0;
    while k < vs.len()
        invariant
            k <= vs.len(),
            forall|j: int| 0 <= j < k ==> vs@[j].name@ != name@,
            match first_variant(vs@, name@) {
                Some(f) => 0 <= f < vs@.len() && vs@[f].name@ == name@ && forall|j: int|
                    0 <= j < f ==> vs@[j].name@ != name@,
                None => forall|j: int| 0 <= j < vs@.len() ==> vs@[j].name@ != name@,
            },
        decreases vs.len() - k,
    {
        if crate::text::str_eq(vs[k].name.as_str(), name) {
            return Some(k);
        }
        k += 1;
    }
    None
}

/// The regions built from `ds` in order, for a variant with cores `cores`.
pub open spec fn build_map(ds: Seq<MemoryDescriptor>, variant: Seq<char>, cores: Seq<Seq<char>>) -> Seq<RegionView>
    decreases ds.len(),
{
    if ds.len() == 0 {
        Seq::empty()
    } else {
        build_map(ds.drop_last(), variant, cores) + match built_region(ds.last(), variant, cores) {
            Some(r) => seq![r],
            None => Seq::empty(),
        }
    }
}

/// Every descriptor's range fits in the address space.
pub open spec fn all_fit(ds: Seq<MemoryDescriptor>) -> bool {
    forall|i: int| 0 <= i < ds.len() ==> descriptor_fits(#[trigger] ds[i])
}

/// The memory map rebuilt from `ds` for a variant with cores `cores`.
pub fn build_memory_map(ds: &Vec<MemoryDescriptor>, variant: &str, cores: &Vec<String>) -> (r: Vec<MemoryRegion>)
    requires
        all_fit(ds@),
    ensures
        map_view(r@) == coalesce(build_map(ds@, variant@, cores.deep_view())),
{
    let mut out: Vec<MemoryRegion> = Vec::new();
    let mut i: usize = 0;
    while i < ds.len()
        invariant
            i <= ds.len(),
            all_fit(ds@),
            map_view(out@) == build_map(ds@.subrange(0, i as int), variant@, cores.deep_view()),
        decreases ds.len() - i,
    {
        let ghost before = map_view(out@);
        assert(ds@.subrange(0, i + 1).drop_last() =~= ds@.subrange(0, i as int));
        assert(descriptor_fits(ds@[i as int]));
        match build_region(&ds[i], variant, cores) {
            Some(reg) => {
                out.push(reg);
                assert(map_view(out@) =~= before + seq![out@.last().view()]);
            },
            None => {
                assert(map_view(out@) =~= before);
            },
        }
        i += 1;
    }
    assert(ds@.subrange(0, ds@.len() as int) =~= ds@);
    merge_consecutive_flash_regions(&mut out);
    out
}

/// Rebuilds the variant currently named `variant` from the address-sorted
/// descriptors `memories`, and renames it to `out_name`. Returns whether the
/// variant was found; the family is unchanged where it was not.
pub fn update_variant(
    family: &mut FamilyDataset,
    variant: &str,
    out_name: &str,
    memories: &Vec<MemoryDescriptor>,
) -> (found: bool)
    requires
        all_fit(memories@),
    ensures
        found == (first_variant(old(family).variants@, variant@) is Some),
        variants_view(final(family).variants@) == rebuilt(
            variants_view(old(family).variants@),
            variant@,
            out_name@,
            memories@,
        ),
        final(family).family_name == old(family).family_name,
        final(family).variants@.len() == old(family).variants@.len(),
        !found ==> final(family).variants@ == old(family).variants@,
        found ==> {
            let k = first_variant(old(family).variants@, variant@)->0;
            let v = old(family).variants@[k];
            let w = final(family).variants@[k];
            &&& forall|j: int|
                0 <= j < old(family).variants@.len() && j != k ==> final(family).variants@[j]
                    == old(family).variants@[j]
            &&& w.name@ == out_name@
            &&& w.cores == v.cores
            &&& w.package_variants == v.package_variants
            &&& w.baseline_index == v.baseline_index
            &&& map_view(w.memory_map@) == coalesce(
                build_map(memories@, variant@, v.cores.deep_view()),
            )
        },
{
    proof {
        lemma_first_variant(family.variants@, variant@);
        lemma_first_named(family.variants@, variant@);
    }
    let ghost old_views = variants_view(family.variants@);
    let k = match find_variant(&family.variants, variant) {
        Some(k) => k,
        None => {
            return false;
        },
    };
    let mut v = family.variants.remove(k);
    v.name = String::from_str(out_name);
    v.memory_map = build_memory_map(memories, variant, &v.cores);
    family.variants.insert(k, v);
    assert(variants_view(family.variants@) =~= rebuilt(old_views, variant@, out_name@, memories@));
    true
}

/// `s` with each value kept only at its first occurrence.
pub open spec fn dedup(s: Seq<Seq<char>>) -> Seq<Seq<char>>
    decreases s.len(),
{
    if s.len() == 0 {
        Seq::empty()
    } else {
        let d = dedup(s.drop_last());
        if d.contains(s.last()) {
            d
        } else {
            d.push(s.last())
        }
    }
}

/// No value occurs twice in `s`.
pub open spec fn no_dups(s: Seq<Seq<char>>) -> bool {
    forall|i: int, j: int| 0 <= i < j < s.len() ==> s[i] != s[j]
}

/// Deduplication leaves no value twice and keeps every value that occurs.
pub proof fn lemma_dedup(s: Seq<Seq<char>>)
    ensures
        no_dups(dedup(s)),
        forall|x: Seq<char>| dedup(s).contains(x) <==> s.contains(x),
    decreases s.len(),
{
    if s.len() > 0 {
        lemma_dedup(s.drop_last());
        let d = dedup(s.drop_last());
        assert forall|x: Seq<char>| s.contains(x) <==> (s.drop_last().contains(x) || x == s.last()) by {
            if s.contains(x) {
                let i = choose|i: int| 0 <= i < s.len() && s[i] == x;
                if i < s.len() - 1 {
                    assert(s.drop_last()[i] == x);
                }
            }
            if s.drop_last().contains(x) {
                let i = choose|i: int| 0 <= i < s.len() - 1 && s.drop_last()[i] == x;
                assert(s[i] == x);
            }
            if x == s.last() {
                assert(s[s.len() - 1] == x);
            }
        }
        if !d.contains(s.last()) {
            assert forall|x: Seq<char>| d.push(s.last()).contains(x) <==> (d.contains(x) || x == s.last()) by {
                if d.push(s.last()).contains(x) {
                    let i = choose|i: int| 0 <= i < d.len() + 1 && d.push(s.last())[i] == x;
                    if i < d.len() {
                        assert(d[i] == x);
                    }
                }
                if d.contains(x) {
                    let i = choose|i: int| 0 <= i < d.len() && d[i] == x;
                    assert(d.push(s.last())[i] == x);
                }
                if x == s.last() {
                    assert(d.push(s.last())[d.len() as int] == x);
                }
            }
        }
    }
}

/// Whether `v` holds a string equal to `x`.
pub fn contains_string(v: &Vec<String>, x: &str) -> (r: bool)
    ensures
        r == v.deep_view().contains(x@),
{
    let mut i: usize = 0;
    while i < v.len()
        invariant
            i <= v.len(),
            forall|j: int| 0 <= j < i ==> v.deep_view()[j] != x@,
        decreases v.len() - i,
    {
        if str_eq(v[i].as_str(), x) {
            assert(v.deep_view()[i as int] == x@);
            return true;
        }
        i += 1;
    }
    false
}

/// The strings of `v`, each kept only at its first occurrence.
pub fn dedup_strings(v: &Vec<String>) -> (r: Vec<String>)
    ensures
        r.deep_view() == dedup(v.deep_view()),
{
    let mut out: Vec<String> = Vec::new();
    let mut i: usize = 0;
    while i < v.len()
        invariant
            i <= v.len(),
            out.deep_view() == dedup(v.deep_view().subrange(0, i as int)),
        decreases v.len() - i,
    {
        assert(v.deep_view().subrange(0, i + 1).drop_last() =~= v.deep_view().subrange(0, i as int));
        if !contains_string(&out, v[i].as_str()) {
            let ghost before = out.deep_view();
            out.push(v[i].clone());
            assert(out.deep_view() =~= before.push(v[i as int]@));
        }
        i += 1;
    }
    assert(v.deep_view().subrange(0, v.len() as int) =~= v.deep_view());
    out
}

/// `a` and `b` agree in all but their package variants.
pub open spec fn same_but_packages(a: ChipVariant, b: ChipVariant) -> bool {
    &&& a.name == b.name
    &&& a.cores == b.cores
    &&& a.memory_map == b.memory_map
    &&& a.baseline_index == b.baseline_index
}

/// Removes repeated package variants of every variant, first occurrence kept.
pub fn deduplicate_package_variants(family: &mut FamilyDataset)
    ensures
        variants_view(final(family).variants@) == packages_deduped(variants_view(old(family).variants@)),
        final(family).family_name == old(family).family_name,
        final(family).variants@.len() == old(family).variants@.len(),
        forall|k: int|
            0 <= k < old(family).variants@.len() ==> {
                &&& same_but_packages(#[trigger] final(family).variants@[k], old(family).variants@[k])
                &&& final(family).variants@[k].package_variants.deep_view() == dedup(
                    old(family).variants@[k].package_variants.deep_view(),
                )
            },
{
    let ghost vs = family.variants@;
    let mut k: usize = 0;
    while k < family.variants.len()
        invariant
            k <= family.variants@.len(),
            family.variants@.len() == vs.len(),
            family.family_name == old(family).family_name,
            vs == old(family).variants@,
            forall|j: int| k <= j < vs.len() ==> family.variants@[j] == vs[j],
            forall|j: int|
                0 <= j < k ==> {
                    &&& same_but_packages(#[trigger] family.variants@[j], vs[j])
                    &&& family.variants@[j].package_variants.deep_view() == dedup(
                        vs[j].package_variants.deep_view(),
                    )
                },
        decreases vs.len() - k,
    {
        let mut v = family.variants.remove(k);
        v.package_variants = dedup_strings(&v.package_variants);
        family.variants.insert(k, v);
        k += 1;
    }
    assert(variants_view(family.variants@) =~= packages_deduped(variants_view(vs)));
}

/// Appends each of `packages` to the package variants of the first variant
/// named `device`. Returns whether that variant was found; the family is
/// unchanged where it was not.
pub fn add_package_variants(family: &mut FamilyDataset, device: &str, packages: &Vec<String>) -> (found: bool)
    ensures
        found == (first_variant(old(family).variants@, device@) is Some),
        variants_view(final(family).variants@) == attached(
            variants_view(old(family).variants@),
            device@,
            packages.deep_view(),
        ),
        final(family).family_name == old(family).family_name,
        final(family).variants@.len() == old(family).variants@.len(),
        !found ==> final(family).variants@ == old(family).variants@,
        found ==> {
            let k = first_variant(old(family).variants@, device@)->0;
            &&& forall|j: int|
                0 <= j < old(family).variants@.len() && j != k ==> final(family).variants@[j]
                    == old(family).variants@[j]
            &&& same_but_packages(final(family).variants@[k], old(family).variants@[k])
            &&& final(family).variants@[k].package_variants.deep_view() == old(
                family,
            ).variants@[k].package_variants.deep_view() + packages.deep_view()
        },
{
    proof {
        lemma_first_variant(family.variants@, device@);
        lemma_first_named(family.variants@, device@);
    }
    let ghost old_views = variants_view(family.variants@);
    let k = match find_variant(&family.variants, device) {
        Some(k) => k,
        None => {
            return false;
        },
    };
    let mut v = family.variants.remove(k);
    let ghost start = v.package_variants.deep_view();
    let ghost v0 = v;
    let mut i: usize = 0;
    while i < packages.len()
        invariant
            i <= packages.len(),
            same_but_packages(v, v0),
            v.package_variants.deep_view() == start + packages.deep_view().subrange(0, i as int),
        decreases packages.len() - i,
    {
        let ghost before = v.package_variants.deep_view();
        v.package_variants.push(packages[i].clone());
        assert(v.package_variants.deep_view() =~= before.push(packages.deep_view()[i as int]));
        i += 1;
        assert(start + packages.deep_view().subrange(0, i as int) =~= before.push(packages.deep_view()[i - 1]));
    }
    assert(packages.deep_view().subrange(0, packages.len() as int) =~= packages.deep_view());
    family.variants.insert(k, v);
    assert(variants_view(family.variants@) =~= attached(old_views, device@, packages.deep_view()));
    true
}

/// Source chip `c` answers to name `n`, as its own name or a package name.
pub open spec fn chip_matches(c: SourceChip, n: Seq<char>) -> bool {
    c.name@ == n || c.packages.deep_view().contains(n)
}

/// Position of the first source chip that answers to `n`.
pub open spec fn first_chip(chips: Seq<SourceChip>, n: Seq<char>) -> Option<int>
    decreases chips.len(),
{
    if chips.len() == 0 {
        None
    } else {
        match first_chip(chips.drop_last(), n) {
            Some(k) => Some(k),
            None => if chip_matches(chips.last(), n) {
                Some(chips.len() - 1)
            } else {
                None
            },
        }
    }
}

/// Some source chip answers to `n`.
pub open spec fn known(chips: Seq<SourceChip>, n: Seq<char>) -> bool {
    first_chip(chips, n) is Some
}

pub proof fn lemma_first_chip(chips: Seq<SourceChip>, n: Seq<char>)
    ensures
        match first_chip(chips, n) {
            Some(k) => 0 <= k < chips.len() && chip_matches(chips[k], n) && forall|j: int|
                0 <= j < k ==> !chip_matches(chips[j], n),
            None => forall|j: int| 0 <= j < chips.len() ==> !chip_matches(chips[j], n),
        },
    decreases chips.len(),
{
    if chips.len() > 0 {
        lemma_first_chip(chips.drop_last(), n);
        assert(forall|j: int| 0 <= j < chips.len() - 1 ==> chips.drop_last()[j] == chips[j]);
    }
}

/// Finds the first source chip whose name or one of whose package names
/// equals `name`.
pub fn chip_from_variant(chips: &Vec<SourceChip>, name: &str) -> (r: Option<usize>)
    ensures
        match r {
            Some(c) => first_chip(chips@, name@) == Some(c as int) && c < chips@.len(),
            None => first_chip(chips@, name@) is None,
        },
{
    proof {
        lemma_first_chip(chips@, name@);
    }
    let mut c: usize = 0;
    while c < chips.len()
        invariant
            c <= chips.len(),
            forall|j: int| 0 <= j < c ==> !chip_matches(chips@[j], name@),
            match first_chip(chips@, name@) {
                Some(k) => 0 <= k < chips@.len() && chip_matches(chips@[k], name@) && forall|j: int|
                    0 <= j < k ==> !chip_matches(chips@[j], name@),
                None => forall|j: int| 0 <= j < chips@.len() ==> !chip_matches(chips@[j], name@),
            },
        decreases chips.len() - c,
    {
        if str_eq(chips[c].name.as_str(), name) || contains_string(&chips[c].packages, name) {
            return Some(c);
        }
        c += 1;
    }
    None
}

/// The values of `s` that some source chip answers to, in order.
pub open spec fn keep_known(s: Seq<Seq<char>>, chips: Seq<SourceChip>) -> Seq<Seq<char>>
    decreases s.len(),
{
    if s.len() == 0 {
        Seq::empty()
    } else if known(chips, s.last()) {
        keep_known(s.drop_last(), chips).push(s.last())
    } else {
        keep_known(s.drop_last(), chips)
    }
}

/// The values of `s` that no source chip answers to, in order.
pub open spec fn drop_known(s: Seq<Seq<char>>, chips: Seq<SourceChip>) -> Seq<Seq<char>>
    decreases s.len(),
{
    if s.len() == 0 {
        Seq::empty()
    } else if known(chips, s.last()) {
        drop_known(s.drop_last(), chips)
    } else {
        drop_known(s.drop_last(), chips).push(s.last())
    }
}

/// The unknown package variants of all variants, variant by variant.
pub open spec fn unknown_packages(vs: Seq<ChipVariant>, chips: Seq<SourceChip>) -> Seq<Seq<char>>
    decreases vs.len(),
{
    if vs.len() == 0 {
        Seq::empty()
    } else {
        unknown_packages(vs.drop_last(), chips) + drop_known(
            vs.last().package_variants.deep_view(),
            chips,
        )
    }
}

/// Keeping the known values of a list without repeats leaves no repeats,
/// and keeps exactly the known values.
pub proof fn lemma_keep_known(s: Seq<Seq<char>>, chips: Seq<SourceChip>)
    requires
        no_dups(s),
    ensures
        no_dups(keep_known(s, chips)),
        forall|x: Seq<char>| keep_known(s, chips).contains(x) ==> s.contains(x) && known(chips, x),
    decreases s.len(),
{
    if s.len() > 0 {
        let t = s.drop_last();
        assert(forall|j: int| 0 <= j < t.len() ==> t[j] == s[j]);
        lemma_keep_known(t, chips);
        let k = keep_known(t, chips);
        assert forall|x: Seq<char>| k.contains(x) implies s.contains(x) by {
            assert(t.contains(x));
            let i = choose|i: int| 0 <= i < t.len() && t[i] == x;
            assert(s[i] == x);
        }
        if known(chips, s.last()) {
            assert(!k.contains(s.last())) by {
                if k.contains(s.last()) {
                    let i = choose|i: int| 0 <= i < t.len() && t[i] == s.last();
                    assert(s[i] == s[s.len() - 1]);
                }
            }
            assert forall|x: Seq<char>| k.push(s.last()).contains(x) implies s.contains(x) && known(chips, x) by {
                let i = choose|i: int| 0 <= i < k.len() + 1 && k.push(s.last())[i] == x;
                if i < k.len() {
                    assert(k[i] == x);
                } else {
                    assert(s[s.len() - 1] == x);
                }
            }
            assert forall|i: int, j: int| 0 <= i < j < k.len() + 1 implies k.push(s.last())[i] != k.push(s.last())[j] by {
                if j == k.len() {
                    assert(k.contains(k[i]));
                }
            }
        }
    }
}

/// Splits `v` into the strings some source chip answers to, returned, and
/// the others, appended to `removed`.
fn split_known(v: &Vec<String>, chips: &Vec<SourceChip>, removed: &mut Vec<String>) -> (kept: Vec<String>)
    ensures
        kept.deep_view() == keep_known(v.deep_view(), chips@),
        final(removed).deep_view() == old(removed).deep_view() + drop_known(v.deep_view(), chips@),
{
    let ghost r0 = removed.deep_view();
    let mut kept: Vec<String> = Vec::new();
    let mut i: usize = 0;
    while i < v.len()
        invariant
            i <= v.len(),
            kept.deep_view() == keep_known(v.deep_view().subrange(0, i as int), chips@),
            removed.deep_view() == r0 + drop_known(v.deep_view().subrange(0, i as int), chips@),
        decreases v.len() - i,
    {
        assert(v.deep_view().subrange(0, i + 1).drop_last() =~= v.deep_view().subrange(0, i as int));
        let ghost k0 = kept.deep_view();
        let ghost rb = removed.deep_view();
        match chip_from_variant(chips, v[i].as_str()) {
            Some(_) => {
                kept.push(v[i].clone());
                assert(kept.deep_view() =~= k0.push(v[i as int]@));
            },
            None => {
                removed.push(v[i].clone());
                assert(removed.deep_view() =~= rb.push(v[i as int]@));
            },
        }
        i += 1;
    }
    assert(v.deep_view().subrange(0, v.len() as int) =~= v.deep_view());
    kept
}

/// Removes from every variant the package variants that no source chip
/// answers to, and returns them in order.
pub fn remove_unknown_variants(family: &mut FamilyDataset, chips: &Vec<SourceChip>) -> (removed: Vec<String>)
    ensures
        final(family).family_name == old(family).family_name,
        final(family).variants@.len() == old(family).variants@.len(),
        forall|k: int|
            0 <= k < old(family).variants@.len() ==> {
                &&& same_but_packages(#[trigger] final(family).variants@[k], old(family).variants@[k])
                &&& final(family).variants@[k].package_variants.deep_view() == keep_known(
                    old(family).variants@[k].package_variants.deep_view(),
                    chips@,
                )
            },
        removed.deep_view() == unknown_packages(old(family).variants@, chips@),
        variants_view(final(family).variants@) == packages_known(variants_view(old(family).variants@), chips@),
        removed.deep_view() == unknown_of_views(variants_view(old(family).variants@), chips@),
{
    let ghost vs = family.variants@;
    let mut removed: Vec<String> = Vec::new();
    let mut k: usize = 0;
    while k < family.variants.len()
        invariant
            k <= family.variants@.len(),
            family.variants@.len() == vs.len(),
            family.family_name == old(family).family_name,
            vs == old(family).variants@,
            forall|j: int| k <= j < vs.len() ==> family.variants@[j] == vs[j],
            forall|j: int|
                0 <= j < k ==> {
                    &&& same_but_packages(#[trigger] family.variants@[j], vs[j])
                    &&& family.variants@[j].package_variants.deep_view() == keep_known(
                        vs[j].package_variants.deep_view(),
                        chips@,
                    )
                },
            removed.deep_view() == unknown_packages(vs.subrange(0, k as int), chips@),
        decreases vs.len() - k,
    {
        assert(vs.subrange(0, k + 1).drop_last() =~= vs.subrange(0, k as int));
        let mut v = family.variants.remove(k);
        v.package_variants = split_known(&v.package_variants, chips, &mut removed);
        family.variants.insert(k, v);
        k += 1;
    }
    assert(vs.subrange(0, vs.len() as int) =~= vs);
    assert(variants_view(family.variants@) =~= packages_known(variants_view(vs), chips@));
    proof {
        lemma_unknown_views(vs, chips@);
    }
    removed
}

/// `vs` with each variant name kept only at its first occurrence.
pub open spec fn dedup_variants(vs: Seq<ChipVariant>) -> Seq<ChipVariant>
    decreases vs.len(),
{
    if vs.len() == 0 {
        Seq::empty()
    } else {
        let d = dedup_variants(vs.drop_last());
        if variant_names(d).contains(vs.last().name@) {
            d
        } else {
            d.push(vs.last())
        }
    }
}

/// After deduplication no two variants share a name.
pub proof fn lemma_dedup_variants(vs: Seq<ChipVariant>)
    ensures
        no_dups(variant_names(dedup_variants(vs))),
    decreases vs.len(),
{
    if vs.len() > 0 {
        lemma_dedup_variants(vs.drop_last());
        let d = dedup_variants(vs.drop_last());
        let n = variant_names(d);
        if !n.contains(vs.last().name@) {
            let e = variant_names(d.push(vs.last()));
            assert(e =~= n.push(vs.last().name@));
            assert forall|i: int, j: int| 0 <= i < j < e.len() implies e[i] != e[j] by {
                if j == n.len() {
                    assert(n.contains(n[i]));
                }
            }
        }
    }
}

/// Whether some of the first `k` variants is named `name`.
fn named_before(vs: &Vec<ChipVariant>, k: usize, name: &str) -> (r: bool)
    requires
        k <= vs@.len(),
    ensures
        r == variant_names(vs@.subrange(0, k as int)).contains(name@),
{
    let ghost names = variant_names(vs@.subrange(0, k as int));
    let mut j: usize = 0;
    while j < k
        invariant
            j <= k <= vs@.len(),
            names == variant_names(vs@.subrange(0, k as int)),
            forall|i: int| 0 <= i < j ==> names[i] != name@,
        decreases k - j,
    {
        if str_eq(vs[j].name.as_str(), name) {
            assert(names[j as int] == name@);
            return true;
        }
        j += 1;
    }
    false
}

/// Removes every variant whose name an earlier variant already has.
pub fn deduplicate_variants(family: &mut FamilyDataset)
    ensures
        final(family).family_name == old(family).family_name,
        final(family).variants@ == dedup_variants(old(family).variants@),
        variants_view(final(family).variants@) == dedup_views(variants_view(old(family).variants@)),
        no_dups(variant_names(final(family).variants@)),
{
    let ghost vs = family.variants@;
    let mut k: usize = 0;
    let ghost mut p: int = 0;
    while k < family.variants.len()
        invariant
            family.family_name == old(family).family_name,
            vs == old(family).variants@,
            0 <= k <= p <= vs.len(),
            family.variants@.len() - k == vs.len() - p,
            family.variants@.subrange(0, k as int) == dedup_variants(vs.subrange(0, p)),
            family.variants@.subrange(k as int, family.variants@.len() as int) == vs.subrange(p, vs.len() as int),
        decreases family.variants@.len() - k,
    {
        assert(vs.subrange(0, p + 1).drop_last() =~= vs.subrange(0, p));
        assert(family.variants@[k as int] == vs[p]) by {
            assert(family.variants@.subrange(k as int, family.variants@.len() as int)[0] == vs.subrange(p, vs.len() as int)[0]);
        }
        let ghost before = family.variants@;
        if named_before(&family.variants, k, family.variants[k].name.as_str()) {
            family.variants.remove(k);
            assert(family.variants@.subrange(0, k as int) =~= before.subrange(0, k as int));
            assert(family.variants@.subrange(k as int, family.variants@.len() as int) =~= vs.subrange(p + 1, vs.len() as int)) by {
                assert forall|i: int| 0 <= i < family.variants@.len() - k implies family.variants@.subrange(k as int, family.variants@.len() as int)[i] == vs.subrange(p + 1, vs.len() as int)[i] by {
                    assert(before.subrange(k as int, before.len() as int)[i + 1] == vs.subrange(p, vs.len() as int)[i + 1]);
                }
            }
        } else {
            k += 1;
            assert(family.variants@.subrange(0, k as int) =~= before.subrange(0, k - 1).push(vs[p]));
            assert(family.variants@.subrange(k as int, family.variants@.len() as int) =~= vs.subrange(p + 1, vs.len() as int)) by {
                assert forall|i: int| 0 <= i < family.variants@.len() - k implies family.variants@.subrange(k as int, family.variants@.len() as int)[i] == vs.subrange(p + 1, vs.len() as int)[i] by {
                    assert(before.subrange(k - 1, before.len() as int)[i + 1] == vs.subrange(p, vs.len() as int)[i + 1]);
                }
            }
        }
        proof {
            p = p + 1;
        }
    }
    assert(vs.subrange(0, vs.len() as int) =~= vs);
    assert(family.variants@.subrange(0, k as int) =~= family.variants@);
    proof {
        lemma_dedup_variants(vs);
        lemma_dedup_views(vs);
    }
}

/// `s` with every trailing packaging suffix `TR` removed.
pub open spec fn trim_packaging(s: Seq<char>) -> Seq<char>
    decreases s.len(),
{
    if s.len() >= 2 && s[s.len() - 2] == 'T' && s[s.len() - 1] == 'R' {
        trim_packaging(s.subrange(0, s.len() - 2))
    } else {
        s
    }
}

/// Removes every trailing `TR` from a baseline name.
pub fn trim_packaging_suffix(name: &str) -> (r: String)
    ensures
        r@ == trim_packaging(name@),
{
    let mut n = name.unicode_len();
    assert(name@.subrange(0, n as int) =~= name@);
    while n >= 2 && name.get_char(n - 2) == 'T' && name.get_char(n - 1) == 'R'
        invariant
            n <= name@.len(),
            trim_packaging(name@) == trim_packaging(name@.subrange(0, n as int)),
        decreases n,
    {
        assert(name@.subrange(0, n as int).subrange(0, n - 2) =~= name@.subrange(0, n - 2));
        n -= 2;
    }
    crate::text::substring(name, 0, n)
}

/// The name a baseline variant takes: that of the first source chip that
/// answers to its name without packaging suffix, else its own.
pub open spec fn normalized_name(v: ChipVariant, chips: Seq<SourceChip>) -> Seq<char> {
    normalized(v.name@, chips)
}

/// `r` is `vs` with every variant given its normalized name.
pub open spec fn renamed_from(r: Seq<ChipVariant>, vs: Seq<ChipVariant>, chips: Seq<SourceChip>) -> bool {
    &&& r.len() == vs.len()
    &&& forall|k: int|
        0 <= k < vs.len() ==> {
            &&& (#[trigger] r[k]).name@ == normalized_name(vs[k], chips)
            &&& r[k].cores == vs[k].cores
            &&& r[k].memory_map == vs[k].memory_map
            &&& r[k].package_variants == vs[k].package_variants
            &&& r[k].baseline_index == vs[k].baseline_index
        }
}

/// The suffix-free names of the variants that no source chip answers to.
pub open spec fn unmatched_names(vs: Seq<ChipVariant>, chips: Seq<SourceChip>) -> Seq<Seq<char>>
    decreases vs.len(),
{
    if vs.len() == 0 {
        Seq::empty()
    } else {
        let t = trim_packaging(vs.last().name@);
        if known(chips, t) {
            unmatched_names(vs.drop_last(), chips)
        } else {
            unmatched_names(vs.drop_last(), chips).push(t)
        }
    }
}

/// Gives every variant its normalized name; returns the suffix-free names
/// of the variants that no source chip answers to.
pub fn rename_variants(family: &mut FamilyDataset, chips: &Vec<SourceChip>) -> (missing: Vec<String>)
    ensures
        final(family).family_name == old(family).family_name,
        renamed_from(final(family).variants@, old(family).variants@, chips@),
        missing.deep_view() == unmatched_names(old(family).variants@, chips@),
{
    let ghost vs = family.variants@;
    let mut missing: Vec<String> = Vec::new();
    let mut k: usize = 0;
    while k < family.variants.len()
        invariant
            k <= family.variants@.len(),
            family.variants@.len() == vs.len(),
            family.family_name == old(family).family_name,
            vs == old(family).variants@,
            forall|j: int| k <= j < vs.len() ==> family.variants@[j] == vs[j],
            renamed_from(family.variants@.subrange(0, k as int), vs.subrange(0, k as int), chips@),
            missing.deep_view() == unmatched_names(vs.subrange(0, k as int), chips@),
        decreases vs.len() - k,
    {
        assert(vs.subrange(0, k + 1).drop_last() =~= vs.subrange(0, k as int));
        let ghost before = family.variants@;
        let mut v = family.variants.remove(k);
        let trimmed = trim_packaging_suffix(v.name.as_str());
        match chip_from_variant(chips, trimmed.as_str()) {
            Some(c) => {
                v.name = chips[c].name.clone();
            },
            None => {
                let ghost m0 = missing.deep_view();
                missing.push(trimmed);
                assert(missing.deep_view() =~= m0.push(trim_packaging(vs[k as int].name@)));
            },
        }
        family.variants.insert(k, v);
        k += 1;
        assert forall|j: int| 0 <= j < k implies #[trigger] family.variants@.subrange(0, k as int)[j]
            == (if j < k - 1 { before.subrange(0, k - 1)[j] } else { family.variants@[j] }) by {}
    }
    assert(vs.subrange(0, vs.len() as int) =~= vs);
    assert(family.variants@.subrange(0, vs.len() as int) =~= family.variants@);
    missing
}

/// The source chips whose name is among `names`, in order.
pub open spec fn keep_chips(chips: Seq<SourceChip>, names: Seq<Seq<char>>) -> Seq<SourceChip>
    decreases chips.len(),
{
    if chips.len() == 0 {
        Seq::empty()
    } else if names.contains(chips.last().name@) {
        keep_chips(chips.drop_last(), names).push(chips.last())
    } else {
        keep_chips(chips.drop_last(), names)
    }
}

/// The names of the source chips whose name is not among `names`, in order.
pub open spec fn dropped_chips(chips: Seq<SourceChip>, names: Seq<Seq<char>>) -> Seq<Seq<char>>
    decreases chips.len(),
{
    if chips.len() == 0 {
        Seq::empty()
    } else if names.contains(chips.last().name@) {
        dropped_chips(chips.drop_last(), names)
    } else {
        dropped_chips(chips.drop_last(), names).push(chips.last().name@)
    }
}

/// Every chip kept is one of the chips it was kept from.
pub proof fn lemma_keep_chips_from(chips: Seq<SourceChip>, names: Seq<Seq<char>>, i: int)
    requires
        0 <= i < keep_chips(chips, names).len(),
    ensures
        exists|j: int| 0 <= j < chips.len() && chips[j] == keep_chips(chips, names)[i],
    decreases chips.len(),
{
    let t = chips.drop_last();
    let k = keep_chips(t, names);
    if names.contains(chips.last().name@) && i == k.len() {
        assert(chips[chips.len() - 1] == keep_chips(chips, names)[i]);
    } else {
        lemma_keep_chips_from(t, names, i);
        let j = choose|j: int| 0 <= j < t.len() && t[j] == k[i];
        assert(chips[j] == t[j]);
    }
}

/// Drops the source chips that no baseline variant is named after, and
/// returns their names.
pub fn retain_matched_chips(chips: &mut Vec<SourceChip>, vs: &Vec<ChipVariant>) -> (dropped: Vec<String>)
    ensures
        final(chips)@ == keep_chips(old(chips)@, variant_names(vs@)),
        dropped.deep_view() == dropped_chips(old(chips)@, variant_names(vs@)),
{
    let ghost cs = chips@;
    let ghost names = variant_names(vs@);
    let mut dropped: Vec<String> = Vec::new();
    let mut k: usize = 0;
    let ghost mut p: int = 0;
    while k < chips.len()
        invariant
            cs == old(chips)@,
            names == variant_names(vs@),
            0 <= k <= p <= cs.len(),
            chips@.len() - k == cs.len() - p,
            chips@.subrange(0, k as int) == keep_chips(cs.subrange(0, p), names),
            chips@.subrange(k as int, chips@.len() as int) == cs.subrange(p, cs.len() as int),
            dropped.deep_view() == dropped_chips(cs.subrange(0, p), names),
        decreases chips@.len() - k,
    {
        assert(cs.subrange(0, p + 1).drop_last() =~= cs.subrange(0, p));
        assert(chips@[k as int] == cs[p]) by {
            assert(chips@.subrange(k as int, chips@.len() as int)[0] == cs.subrange(p, cs.len() as int)[0]);
        }
        let ghost before = chips@;
        if named_before(vs, vs.len(), chips[k].name.as_str()) {
            k += 1;
            assert(vs@.subrange(0, vs@.len() as int) =~= vs@);
            assert(chips@.subrange(0, k as int) =~= before.subrange(0, k - 1).push(cs[p]));
            assert(chips@.subrange(k as int, chips@.len() as int) =~= cs.subrange(p + 1, cs.len() as int)) by {
                assert forall|i: int| 0 <= i < chips@.len() - k implies chips@.subrange(k as int, chips@.len() as int)[i] == cs.subrange(p + 1, cs.len() as int)[i] by {
                    assert(before.subrange(k - 1, before.len() as int)[i + 1] == cs.subrange(p, cs.len() as int)[i + 1]);
                }
            }
        } else {
            assert(vs@.subrange(0, vs@.len() as int) =~= vs@);
            let c = chips.remove(k);
            let ghost d0 = dropped.deep_view();
            dropped.push(c.name);
            assert(dropped.deep_view() =~= d0.push(cs[p].name@));
            assert(chips@.subrange(0, k as int) =~= before.subrange(0, k as int));
            assert(chips@.subrange(k as int, chips@.len() as int) =~= cs.subrange(p + 1, cs.len() as int)) by {
                assert forall|i: int| 0 <= i < chips@.len() - k implies chips@.subrange(k as int, chips@.len() as int)[i] == cs.subrange(p + 1, cs.len() as int)[i] by {
                    assert(before.subrange(k as int, before.len() as int)[i + 1] == cs.subrange(p, cs.len() as int)[i + 1]);
                }
            }
        }
        proof {
            p = p + 1;
        }
    }
    assert(cs.subrange(0, cs.len() as int) =~= cs);
    assert(chips@.subrange(0, k as int) =~= chips@);
    dropped
}

/// Appends each of `names` to `out` as a diagnostic of kind `kind`.
pub fn report(out: &mut Vec<Diagnostic>, kind: DiagnosticKind, names: Vec<String>)
    ensures
        diagnostics_view(final(out)@) == diagnostics_view(old(out)@) + tagged(kind, names.deep_view()),
{
    let ghost start = diagnostics_view(out@);
    let ghost all = names.deep_view();
    let mut i: usize = 0;
    while i < names.len()
        invariant
            i <= names.len(),
            all == names.deep_view(),
            diagnostics_view(out@) == start + tagged(kind, all.subrange(0, i as int)),
        decreases names.len() - i,
    {
        let ghost before = diagnostics_view(out@);
        out.push(Diagnostic { kind, name: names[i].clone() });
        i += 1;
        assert(diagnostics_view(out@) =~= before.push((kind, all[i - 1])));
        assert(tagged(kind, all.subrange(0, i as int)) =~= tagged(kind, all.subrange(0, i - 1)).push((kind, all[i - 1])));
    }
    assert(all.subrange(0, names.len() as int) =~= all);
}

/// Normalizes the baseline against the source chips: renames each variant
/// after the source chip that answers to it, keeps the first variant of each
/// name, and drops the source chips that no variant is named after.
/// Reports unmatched baseline names, then dropped source chips.
pub fn preprocess_family(family: &mut FamilyDataset, chips: &mut Vec<SourceChip>) -> (d: Vec<Diagnostic>)
    ensures
        final(family).family_name == old(family).family_name,
        exists|r: Seq<ChipVariant>|
            renamed_from(r, old(family).variants@, old(chips)@) && final(family).variants@
                == dedup_variants(r),
        no_dups(variant_names(final(family).variants@)),
        variants_view(final(family).variants@) == dedup_views(
            renamed_views(variants_view(old(family).variants@), old(chips)@),
        ),
        variant_names(final(family).variants@) == view_names(variants_view(final(family).variants@)),
        final(chips)@ == keep_chips(old(chips)@, variant_names(final(family).variants@)),
        diagnostics_view(d@) == tagged(
            DiagnosticKind::MissingFromSource,
            unmatched_names(old(family).variants@, old(chips)@),
        ) + tagged(
            DiagnosticKind::MissingFromBaseline,
            dropped_chips(old(chips)@, variant_names(final(family).variants@)),
        ),
{
    let mut d: Vec<Diagnostic> = Vec::new();
    let missing = rename_variants(family, chips);
    let ghost r = family.variants@;
    assert(variants_view(r) =~= renamed_views(variants_view(old(family).variants@), old(chips)@));
    deduplicate_variants(family);
    proof {
        lemma_first_named(family.variants@, Seq::empty());
    }
    let dropped = retain_matched_chips(chips, &family.variants);
    report(&mut d, DiagnosticKind::MissingFromSource, missing);
    assert(diagnostics_view(d@) =~= tagged(DiagnosticKind::MissingFromSource, unmatched_names(old(family).variants@, old(chips)@)));
    report(&mut d, DiagnosticKind::MissingFromBaseline, dropped);
    d
}

/// Some of `ps` is a prefix of `n`.
pub open spec fn any_prefix(ps: Seq<Seq<char>>, n: Seq<char>) -> bool {
    exists|i: int| 0 <= i < ps.len() && has_prefix(n, ps[i])
}

/// The configuration admits a device named `n`.
pub open spec fn admitted(c: FamilyConfig, n: Seq<char>) -> bool {
    &&& (c.allow_prefixes matches Some(a) ==> any_prefix(a.deep_view(), n))
    &&& (c.deny_prefixes matches Some(d) ==> !any_prefix(d.deep_view(), n))
}

fn has_any_prefix(ps: &Vec<String>, n: &str) -> (r: bool)
    ensures
        r == any_prefix(ps.deep_view(), n@),
{
    let mut i: usize = 0;
    while i < ps.len()
        invariant
            i <= ps.len(),
            forall|j: int| 0 <= j < i ==> !has_prefix(n@, ps.deep_view()[j]),
        decreases ps.len() - i,
    {
        if starts_with(n, ps[i].as_str()) {
            assert(has_prefix(n@, ps.deep_view()[i as int]));
            return true;
        }
        i += 1;
    }
    false
}

/// Whether the configuration admits a device named `n`.
pub fn is_admitted(c: &FamilyConfig, n: &str) -> (r: bool)
    ensures
        r == admitted(*c, n@),
{
    let allowed = match &c.allow_prefixes {
        Some(a) => has_any_prefix(a, n),
        None => true,
    };
    let denied = match &c.deny_prefixes {
        Some(d) => has_any_prefix(d, n),
        None => false,
    };
    allowed && !denied
}

/// Every memory descriptor of every source chip fits in the address space.
pub open spec fn chips_fit(chips: Seq<SourceChip>) -> bool {
    forall|i: int| 0 <= i < chips.len() ==> all_fit((#[trigger] chips[i]).memories@)
}

/// The variants after one source chip: an admitted chip rebuilds the map of
/// the variant named after it from its address-sorted descriptors, then
/// appends its packages to that variant.
pub open spec fn chip_step(vs: Seq<VariantView>, c: SourceChip, config: FamilyConfig) -> Seq<VariantView> {
    if admitted(config, c.name@) {
        attached(
            rebuilt(vs, c.name@, c.name@, sorted_by_address(c.memories@)),
            c.name@,
            c.packages.deep_view(),
        )
    } else {
        vs
    }
}

/// The variants after the source chips `chips`, in order.
pub open spec fn chip_steps(vs: Seq<VariantView>, chips: Seq<SourceChip>, config: FamilyConfig) -> Seq<VariantView>
    decreases chips.len(),
{
    if chips.len() == 0 {
        vs
    } else {
        chip_step(chip_steps(vs, chips.drop_last(), config), chips.last(), config)
    }
}

/// The names of the admitted chips among `chips` that found no variant
/// named after them when their turn came.
pub open spec fn chip_misses(vs: Seq<VariantView>, chips: Seq<SourceChip>, config: FamilyConfig) -> Seq<Seq<char>>
    decreases chips.len(),
{
    if chips.len() == 0 {
        Seq::empty()
    } else {
        let c = chips.last();
        chip_misses(vs, chips.drop_last(), config) + if admitted(config, c.name@) && first_named(
            chip_steps(vs, chips.drop_last(), config),
            c.name@,
        ) is None {
            seq![c.name@]
        } else {
            Seq::empty()
        }
    }
}

/// The variants after preprocessing against `chips`.
pub open spec fn preprocessed(vs: Seq<VariantView>, chips: Seq<SourceChip>) -> Seq<VariantView> {
    dedup_views(renamed_views(vs, chips))
}

/// The variants after the cleanup that ends a reconciliation: repeated
/// names and repeated package variants removed.
pub open spec fn cleaned(vs: Seq<VariantView>) -> Seq<VariantView> {
    packages_deduped(dedup_views(vs))
}

/// Reconciles one family against the source chips: normalizes names,
/// rebuilds the memory map of each admitted chip's variant from its
/// address-sorted descriptors, attaches package variants, removes repeats
/// and package variants unknown to the source. Returns the diagnostics:
/// those of preprocessing, the admitted chips with no variant, then the
/// removed package variants.
pub fn reconcile_family(family: &mut FamilyDataset, chips: &mut Vec<SourceChip>, config: &FamilyConfig) -> (d: Vec<Diagnostic>)
    requires
        chips_fit(old(chips)@),
    ensures
        ({
            let pre = preprocessed(variants_view(old(family).variants@), old(chips)@);
            let kept = keep_chips(old(chips)@, view_names(pre));
            let built = chip_steps(pre, kept, *config);
            &&& final(chips)@ == kept
            &&& variants_view(final(family).variants@) == packages_known(cleaned(built), kept)
            &&& diagnostics_view(d@) == tagged(
                DiagnosticKind::MissingFromSource,
                unmatched_names(old(family).variants@, old(chips)@),
            ) + tagged(DiagnosticKind::MissingFromBaseline, dropped_chips(old(chips)@, view_names(pre)))
                + tagged(DiagnosticKind::MissingFromBaseline, chip_misses(pre, kept, *config)) + tagged(
                DiagnosticKind::RemovedUnknown,
                unknown_of_views(cleaned(built), kept),
            )
        }),
        final(family).family_name == old(family).family_name,
        no_dups(variant_names(final(family).variants@)),
        forall|k: int|
            0 <= k < final(family).variants@.len() ==> no_dups(
                (#[trigger] final(family).variants@[k]).package_variants.deep_view(),
            ),
        forall|k: int, x: Seq<char>|
            0 <= k < final(family).variants@.len()
                && #[trigger] final(family).variants@[k].package_variants.deep_view().contains(x)
                ==> known(final(chips)@, x),
{
    let ghost pre = preprocessed(variants_view(old(family).variants@), old(chips)@);
    let mut d = preprocess_family(family, chips);
    let ghost kept = chips@;
    let ghost d_pre = diagnostics_view(d@);
    proof {
        assert forall|i: int| 0 <= i < chips@.len() implies all_fit((#[trigger] chips@[i]).memories@) by {
            lemma_keep_chips_from(old(chips)@, variant_names(family.variants@), i);
            let j = choose|j: int| 0 <= j < old(chips)@.len() && old(chips)@[j] == keep_chips(old(chips)@, variant_names(family.variants@))[i];
            assert(all_fit(old(chips)@[j].memories@));
        }
        assert(chips@.subrange(0, 0) =~= Seq::<SourceChip>::empty());
        assert(d_pre + tagged(DiagnosticKind::MissingFromBaseline, Seq::empty()) =~= d_pre);
    }
    let mut i: usize = 0;
    while i < chips.len()
        invariant
            i <= chips@.len(),
            chips@ == kept,
            chips_fit(chips@),
            family.family_name == old(family).family_name,
            variants_view(family.variants@) == chip_steps(pre, chips@.subrange(0, i as int), *config),
            diagnostics_view(d@) == d_pre + tagged(
                DiagnosticKind::MissingFromBaseline,
                chip_misses(pre, chips@.subrange(0, i as int), *config),
            ),
        decreases chips.len() - i,
    {
        let ghost sub = chips@.subrange(0, i + 1);
        assert(sub.drop_last() =~= chips@.subrange(0, i as int));
        assert(sub.last() == chips@[i as int]);
        let ghost before = variants_view(family.variants@);
        let ghost d_before = diagnostics_view(d@);
        let chip = &chips[i];
        if is_admitted(config, chip.name.as_str()) {
            assert(all_fit(chips@[i as int].memories@));
            let sorted = sort_by_address(&chip.memories);
            proof {
                lemma_first_named(family.variants@, chip.name@);
            }
            let found = update_variant(family, chip.name.as_str(), chip.name.as_str(), &sorted);
            if !found {
                d.push(Diagnostic { kind: DiagnosticKind::MissingFromBaseline, name: chip.name.clone() });
                assert(diagnostics_view(d@) =~= d_before.push((DiagnosticKind::MissingFromBaseline, chip.name@)));
            }
            add_package_variants(family, chip.name.as_str(), &chip.packages);
        }
        proof {
            let m0 = chip_misses(pre, chips@.subrange(0, i as int), *config);
            assert(tagged(DiagnosticKind::MissingFromBaseline, m0.push(chips@[i as int].name@)) =~= tagged(
                DiagnosticKind::MissingFromBaseline,
                m0,
            ).push((DiagnosticKind::MissingFromBaseline, chips@[i as int].name@)));
            assert(m0 + Seq::<Seq<char>>::empty() =~= m0);
            assert(m0 + seq![chips@[i as int].name@] =~= m0.push(chips@[i as int].name@));
        }
        i += 1;
    }
    assert(chips@.subrange(0, chips@.len() as int) =~= chips@);
    let ghost built = variants_view(family.variants@);
    let ghost d_loop = diagnostics_view(d@);
    deduplicate_variants(family);
    let ghost v1 = family.variants@;
    deduplicate_package_variants(family);
    let ghost v2 = family.variants@;
    let removed = remove_unknown_variants(family, chips);
    report(&mut d, DiagnosticKind::RemovedUnknown, removed);
    proof {
        assert(variant_names(family.variants@) =~= variant_names(v1)) by {
            assert forall|k: int| 0 <= k < v1.len() implies variant_names(family.variants@)[k] == variant_names(v1)[k] by {
                assert(same_but_packages(family.variants@[k], v2[k]));
                assert(same_but_packages(v2[k], v1[k]));
            }
        }
        assert forall|k: int| 0 <= k < family.variants@.len() implies no_dups(
            (#[trigger] family.variants@[k]).package_variants.deep_view(),
        ) && forall|x: Seq<char>| family.variants@[k].package_variants.deep_view().contains(x) ==> known(chips@, x) by {
            assert(same_but_packages(family.variants@[k], v2[k]));
            lemma_dedup(v1[k].package_variants.deep_view());
            lemma_keep_known(v2[k].package_variants.deep_view(), chips@);
        }
        let t1 = tagged(DiagnosticKind::MissingFromSource, unmatched_names(old(family).variants@, old(chips)@));
        let t2 = tagged(DiagnosticKind::MissingFromBaseline, dropped_chips(old(chips)@, view_names(pre)));
        let t3 = tagged(DiagnosticKind::MissingFromBaseline, chip_misses(pre, kept, *config));
        assert(d_pre == t1 + t2);
        assert(diagnostics_view(d@) =~= t1 + t2 + t3 + tagged(DiagnosticKind::RemovedUnknown, unknown_of_views(cleaned(built), kept)));
    }
    d
}

/// The family a source chip is reconciled under: `STM32L4+` chips go with
/// `STM32L4`, and `STM32H7R`/`STM32H7S` chips form `STM32H7RS`.
pub open spec fn family_group_of(family: Seq<char>, chip: Seq<char>) -> Seq<char> {
    if family == "STM32L4+"@ {
        "STM32L4"@
    } else if family == "STM32H7"@ && (has_prefix(chip, "STM32H7R"@) || has_prefix(chip, "STM32H7S"@)) {
        "STM32H7RS"@
    } else {
        family
    }
}

/// The family under which a source chip named `chip` of family `family` is
/// reconciled.
pub fn family_group(family: &str, chip: &str) -> (r: String)
    ensures
        r@ == family_group_of(family@, chip@),
{
    if str_eq(family, "STM32L4+") {
        String::from_str("STM32L4")
    } else if str_eq(family, "STM32H7") && (starts_with(chip, "STM32H7R") || starts_with(chip, "STM32H7S")) {
        String::from_str("STM32H7RS")
    } else {
        String::from_str(family)
    }
}

/// Every descriptor list fits in the address space.
pub open spec fn lists_fit(ms: Seq<Vec<MemoryDescriptor>>) -> bool {
    forall|i: int| 0 <= i < ms.len() ==> all_fit((#[trigger] ms[i])@)
}

/// The variants after the suffix-derived names of one device: each variant
/// first named by a full name is rebuilt from `ds` and renamed to `id`, and
/// the full name is appended to the package variants of the variant named
/// `id`.
pub open spec fn suffix_steps(
    vs: Seq<VariantView>,
    root: Seq<char>,
    id: Seq<char>,
    suffixes: Seq<Seq<char>>,
    ds: Seq<MemoryDescriptor>,
) -> Seq<VariantView>
    decreases suffixes.len(),
{
    if suffixes.len() == 0 {
        vs
    } else {
        let b = suffix_steps(vs, root, id, suffixes.drop_last(), ds);
        let full = full_name(root, suffixes.last());
        attached(rebuilt(b, full, id, ds), id, seq![full])
    }
}

/// The full names among those of one device that named no variant when
/// their turn came.
pub open spec fn suffix_misses(
    vs: Seq<VariantView>,
    root: Seq<char>,
    id: Seq<char>,
    suffixes: Seq<Seq<char>>,
    ds: Seq<MemoryDescriptor>,
) -> Seq<Seq<char>>
    decreases suffixes.len(),
{
    if suffixes.len() == 0 {
        Seq::empty()
    } else {
        let b = suffix_steps(vs, root, id, suffixes.drop_last(), ds);
        let full = full_name(root, suffixes.last());
        suffix_misses(vs, root, id, suffixes.drop_last(), ds) + if first_named(b, full) is None {
            seq![full]
        } else {
            Seq::empty()
        }
    }
}

/// The variants after one legacy device with descriptors `ds`.
pub open spec fn device_step(vs: Seq<VariantView>, dev: Device, ds: Seq<MemoryDescriptor>, config: FamilyConfig) -> Seq<VariantView> {
    let id = dev.device_id@;
    if !admitted(config, id) {
        vs
    } else if config.single_variant {
        rebuilt(vs, id, id, sorted_by_address(ds))
    } else {
        suffix_steps(vs, dev.part_number_root@, id, dev.variant_suffixes.deep_view(), sorted_by_address(ds))
    }
}

/// The names of one legacy device that found no variant.
pub open spec fn device_miss(vs: Seq<VariantView>, dev: Device, ds: Seq<MemoryDescriptor>, config: FamilyConfig) -> Seq<Seq<char>> {
    let id = dev.device_id@;
    if !admitted(config, id) {
        Seq::empty()
    } else if config.single_variant {
        if first_named(vs, id) is None {
            seq![id]
        } else {
            Seq::empty()
        }
    } else {
        suffix_misses(vs, dev.part_number_root@, id, dev.variant_suffixes.deep_view(), sorted_by_address(ds))
    }
}

/// The variants after the legacy devices `devs`, `mems` holding their
/// descriptors.
pub open spec fn device_steps(
    vs: Seq<VariantView>,
    devs: Seq<Device>,
    mems: Seq<Vec<MemoryDescriptor>>,
    config: FamilyConfig,
) -> Seq<VariantView>
    decreases devs.len(),
{
    if devs.len() == 0 || mems.len() == 0 {
        vs
    } else {
        device_step(device_steps(vs, devs.drop_last(), mems.drop_last(), config), devs.last(), mems.last()@, config)
    }
}

/// The names of the legacy devices `devs` that found no variant.
pub open spec fn device_misses(
    vs: Seq<VariantView>,
    devs: Seq<Device>,
    mems: Seq<Vec<MemoryDescriptor>>,
    config: FamilyConfig,
) -> Seq<Seq<char>>
    decreases devs.len(),
{
    if devs.len() == 0 || mems.len() == 0 {
        Seq::empty()
    } else {
        device_misses(vs, devs.drop_last(), mems.drop_last(), config) + device_miss(
            device_steps(vs, devs.drop_last(), mems.drop_last(), config),
            devs.last(),
            mems.last()@,
            config,
        )
    }
}

proof fn lemma_tag_append(kind: DiagnosticKind, a: Seq<Seq<char>>, b: Seq<Seq<char>>)
    ensures
        tagged(kind, a + b) == tagged(kind, a) + tagged(kind, b),
{
    assert(tagged(kind, a + b) =~= tagged(kind, a) + tagged(kind, b));
}

/// Rebuilds the variants of legacy-source devices. `memories[i]` holds the
/// descriptors of `devices[i]`. For each admitted device, the variant named
/// after the device id (single-variant families) or each variant named by a
/// suffix-derived full name is rebuilt and renamed to the device id, and
/// each full name is attached as a package variant of the device's variant.
/// Repeated names and package variants are then removed. Returns the names
/// with no baseline variant.
pub fn reconcile_devices(
    family: &mut FamilyDataset,
    devices: &Vec<Device>,
    memories: &Vec<Vec<MemoryDescriptor>>,
    config: &FamilyConfig,
) -> (d: Vec<Diagnostic>)
    requires
        memories@.len() == devices@.len(),
        lists_fit(memories@),
    ensures
        variants_view(final(family).variants@) == cleaned(
            device_steps(variants_view(old(family).variants@), devices@, memories@, *config),
        ),
        diagnostics_view(d@) == tagged(
            DiagnosticKind::MissingFromBaseline,
            device_misses(variants_view(old(family).variants@), devices@, memories@, *config),
        ),
        final(family).family_name == old(family).family_name,
        no_dups(variant_names(final(family).variants@)),
        forall|k: int|
            0 <= k < final(family).variants@.len() ==> no_dups(
                (#[trigger] final(family).variants@[k]).package_variants.deep_view(),
            ),
{
    let ghost v0 = variants_view(family.variants@);
    let mut d: Vec<Diagnostic> = Vec::new();
    let mut i: usize = 0;
    assert(diagnostics_view(d@) =~= tagged(DiagnosticKind::MissingFromBaseline, Seq::empty()));
    while i < devices.len()
        invariant
            i <= devices@.len(),
            memories@.len() == devices@.len(),
            lists_fit(memories@),
            family.family_name == old(family).family_name,
            variants_view(family.variants@) == device_steps(
                v0,
                devices@.subrange(0, i as int),
                memories@.subrange(0, i as int),
                *config,
            ),
            diagnostics_view(d@) == tagged(
                DiagnosticKind::MissingFromBaseline,
                device_misses(v0, devices@.subrange(0, i as int), memories@.subrange(0, i as int), *config),
            ),
        decreases devices.len() - i,
    {
        assert(devices@.subrange(0, i + 1).drop_last() =~= devices@.subrange(0, i as int));
        assert(memories@.subrange(0, i + 1).drop_last() =~= memories@.subrange(0, i as int));
        let ghost before = variants_view(family.variants@);
        let ghost d_before = diagnostics_view(d@);
        let ghost misses_before = device_misses(v0, devices@.subrange(0, i as int), memories@.subrange(0, i as int), *config);
        let device = &devices[i];
        let id = device.device_id.as_str();
        let ghost miss: Seq<Seq<char>>;
        if is_admitted(config, id) {
            assert(all_fit(memories@[i as int]@));
            let sorted = sort_by_address(&memories[i]);
            if config.single_variant {
                proof {
                    lemma_first_named(family.variants@, id@);
                }
                if !update_variant(family, id, id, &sorted) {
                    d.push(Diagnostic { kind: DiagnosticKind::MissingFromBaseline, name: device.device_id.clone() });
                    assert(diagnostics_view(d@) =~= d_before + tagged(DiagnosticKind::MissingFromBaseline, seq![id@]));
                    proof {
                        miss = seq![id@];
                    }
                } else {
                    assert(diagnostics_view(d@) =~= d_before + tagged(DiagnosticKind::MissingFromBaseline, Seq::empty()));
                    proof {
                        miss = Seq::empty();
                    }
                }
            } else {
                let names = derive_names(device);
                let ghost root = device.part_number_root@;
                let ghost sfx = device.variant_suffixes.deep_view();
                let mut j: usize = 0;
                assert(sfx.subrange(0, 0) =~= Seq::<Seq<char>>::empty());
                assert(d_before + tagged(DiagnosticKind::MissingFromBaseline, Seq::empty()) =~= d_before);
                while j < names.len()
                    invariant
                        j <= names@.len(),
                        names@.len() == sfx.len(),
                        sfx == device.variant_suffixes.deep_view(),
                        root == device.part_number_root@,
                        forall|k: int|
                            0 <= k < names@.len() ==> (#[trigger] names@[k]).device_id@ == id@ && names@[k].full_name@
                                == full_name(root, sfx[k]),
                        all_fit(sorted@),
                        family.family_name == old(family).family_name,
                        variants_view(family.variants@) == suffix_steps(before, root, id@, sfx.subrange(0, j as int), sorted@),
                        diagnostics_view(d@) == d_before + tagged(
                            DiagnosticKind::MissingFromBaseline,
                            suffix_misses(before, root, id@, sfx.subrange(0, j as int), sorted@),
                        ),
                    decreases names.len() - j,
                {
                    assert(sfx.subrange(0, j + 1).drop_last() =~= sfx.subrange(0, j as int));
                    assert(sfx.subrange(0, j + 1).last() == sfx[j as int]);
                    let ghost dj = diagnostics_view(d@);
                    let ghost mj = suffix_misses(before, root, id@, sfx.subrange(0, j as int), sorted@);
                    let full = names[j].full_name.as_str();
                    proof {
                        lemma_first_named(family.variants@, full@);
                    }
                    if !update_variant(family, full, id, &sorted) {
                        d.push(Diagnostic { kind: DiagnosticKind::MissingFromBaseline, name: names[j].full_name.clone() });
                        proof {
                            lemma_tag_append(DiagnosticKind::MissingFromBaseline, mj, seq![full@]);
                        }
                        assert(diagnostics_view(d@) =~= dj.push((DiagnosticKind::MissingFromBaseline, full@)));
                    } else {
                        assert(mj + Seq::<Seq<char>>::empty() =~= mj);
                    }
                    let mut package: Vec<String> = Vec::new();
                    package.push(names[j].full_name.clone());
                    assert(package.deep_view() =~= seq![full@]);
                    add_package_variants(family, id, &package);
                    j += 1;
                }
                assert(sfx.subrange(0, names@.len() as int) =~= sfx);
                proof {
                    miss = suffix_misses(before, root, id@, sfx, sorted@);
                }
            }
        } else {
            assert(diagnostics_view(d@) =~= d_before + tagged(DiagnosticKind::MissingFromBaseline, Seq::empty()));
            proof {
                miss = Seq::empty();
            }
        }
        proof {
            lemma_tag_append(DiagnosticKind::MissingFromBaseline, misses_before, miss);
        }
        i += 1;
    }
    assert(devices@.subrange(0, devices@.len() as int) =~= devices@);
    assert(memories@.subrange(0, memories@.len() as int) =~= memories@);
    deduplicate_variants(family);
    let ghost v1 = family.variants@;
    deduplicate_package_variants(family);
    proof {
        assert(variant_names(family.variants@) =~= variant_names(v1)) by {
            assert forall|k: int| 0 <= k < v1.len() implies variant_names(family.variants@)[k] == variant_names(v1)[k] by {
                assert(same_but_packages(family.variants@[k], v1[k]));
            }
        }
        assert forall|k: int| 0 <= k < family.variants@.len() implies no_dups(
            (#[trigger] family.variants@[k]).package_variants.deep_view(),
        ) by {
            lemma_dedup(v1[k].package_variants.deep_view());
        }
    }
    d
}

/// `map` holds a RAM region named like `d` covering `d`'s range.
pub open spec fn holds_ram_of(map: Seq<RegionView>, d: MemoryDescriptor) -> bool {
    exists|k: int|
        0 <= k < map.len() && (#[trigger] map[k]).kind == RegionKind::Ram && map[k].name == Some(d.name@)
            && map[k].start == d.address && map[k].end == d.address + d.size
}

proof fn lemma_build_map_ram(ds: Seq<MemoryDescriptor>, variant: Seq<char>, cores: Seq<Seq<char>>)
    ensures
        forall|k: int|
            0 <= k < build_map(ds, variant, cores).len() && (#[trigger] build_map(ds, variant, cores)[k]).kind
                == RegionKind::Ram ==> exists|j: int|
                0 <= j < ds.len() && built_region(ds[j], variant, cores) == Some(build_map(ds, variant, cores)[k]),
        forall|j: int|
            0 <= j < ds.len() && (#[trigger] built_region(ds[j], variant, cores)) is Some ==> build_map(
                ds,
                variant,
                cores,
            ).contains(built_region(ds[j], variant, cores)->0),
    decreases ds.len(),
{
    if ds.len() > 0 {
        let t = ds.drop_last();
        lemma_build_map_ram(t, variant, cores);
        let b = build_map(t, variant, cores);
        let e = match built_region(ds.last(), variant, cores) {
            Some(r) => seq![r],
            None => Seq::<RegionView>::empty(),
        };
        assert forall|k: int|
            0 <= k < build_map(ds, variant, cores).len() && (#[trigger] build_map(ds, variant, cores)[k]).kind
                == RegionKind::Ram implies exists|j: int|
                0 <= j < ds.len() && built_region(ds[j], variant, cores) == Some(build_map(ds, variant, cores)[k]) by {
            if k < b.len() {
                assert(build_map(ds, variant, cores)[k] == b[k]);
                let j = choose|j: int| 0 <= j < t.len() && built_region(t[j], variant, cores) == Some(b[k]);
                assert(ds[j] == t[j]);
            } else {
                assert(built_region(ds[ds.len() - 1], variant, cores) == Some(build_map(ds, variant, cores)[k]));
            }
        }
        assert forall|j: int|
            0 <= j < ds.len() && (#[trigger] built_region(ds[j], variant, cores)) is Some implies build_map(
                ds,
                variant,
                cores,
            ).contains(built_region(ds[j], variant, cores)->0) by {
            let r = built_region(ds[j], variant, cores)->0;
            if j < ds.len() - 1 {
                assert(ds[j] == t[j]);
                assert(built_region(t[j], variant, cores) is Some);
                let k = choose|k: int| 0 <= k < b.len() && b[k] == r;
                assert((b + e)[k] == r);
            } else {
                assert((b + e)[b.len() as int] == r);
            }
        }
    }
}

proof fn lemma_coalesce_ram_from(m: Seq<RegionView>, i: int, group: Option<(Seq<char>, RegionView)>, r: RegionView)
    requires
        0 <= i <= m.len(),
        r.kind == RegionKind::Ram,
        group matches Some((_, g)) ==> g.kind == RegionKind::Nvm,
    ensures
        coalesce_from(m, i, group).contains(r) <==> exists|j: int| i <= j < m.len() && m[j] == r,
    decreases m.len() - i,
{
    if i == m.len() {
    } else {
        let x = m[i];
        let begun = begin_group(m, i);
        let nv = match bank_of(x) {
            Some(b) => Some((b, renamed(x, b))),
            None => None,
        };
        lemma_coalesce_ram_from(m, i + 1, nv, r);
        let rest = coalesce_from(m, i + 1, nv);
        assert(begun == match bank_of(x) {
            Some(b) => rest,
            None => seq![x] + rest,
        });
        assert(begun.contains(r) <==> exists|j: int| i <= j < m.len() && m[j] == r) by {
            if begun.contains(r) {
                let k = choose|k: int| 0 <= k < begun.len() && begun[k] == r;
                if bank_of(x) is None && k == 0 {
                    assert(m[i] == r);
                } else if bank_of(x) is None {
                    assert(rest[k - 1] == r);
                }
            }
            if exists|j: int| i <= j < m.len() && m[j] == r {
                let j = choose|j: int| i <= j < m.len() && m[j] == r;
                if j == i {
                    assert(bank_of(x) is None);
                    assert(begun[0] == r);
                } else {
                    let k = choose|k: int| 0 <= k < rest.len() && rest[k] == r;
                    if bank_of(x) is None {
                        assert(begun[k + 1] == r);
                    } else {
                        assert(begun[k] == r);
                    }
                }
            }
        }
        match group {
            Some((bank, g)) => {
                if crate::coalesce::extends(bank, g, x) {
                    lemma_coalesce_ram_from(m, i + 1, Some((bank, grown(g, x.end))), r);
                    if exists|j: int| i <= j < m.len() && m[j] == r {
                        let j = choose|j: int| i <= j < m.len() && m[j] == r;
                        assert(j != i);
                    }
                } else {
                    let c = seq![g] + begun;
                    assert(c.contains(r) <==> begun.contains(r)) by {
                        if c.contains(r) {
                            let k = choose|k: int| 0 <= k < c.len() && c[k] == r;
                            assert(k != 0);
                            assert(begun[k - 1] == r);
                        }
                        if begun.contains(r) {
                            let k = choose|k: int| 0 <= k < begun.len() && begun[k] == r;
                            assert(c[k + 1] == r);
                        }
                    }
                }
            },
            None => {},
        }
    }
}

/// The secondary SRAM rule over whole maps: a secondary SRAM bank of the
/// descriptors appears as a RAM region of the rebuilt map exactly when the
/// variant is not of the dual-core wireless family.
pub proof fn lemma_secondary_sram_rule(ds: Seq<MemoryDescriptor>, variant: Seq<char>, cores: Seq<Seq<char>>, i: int)
    requires
        0 <= i < ds.len(),
        all_fit(ds),
        ds[i].kind == crate::model::MemoryKind::Ram,
        is_secondary_sram(ds[i].name@),
    ensures
        holds_ram_of(coalesce(build_map(ds, variant, cores)), ds[i]) <==> !is_wireless_variant(variant),
{
    let b = build_map(ds, variant, cores);
    let c = coalesce(b);
    lemma_build_map_ram(ds, variant, cores);
    assert(descriptor_fits(ds[i]));
    if !is_wireless_variant(variant) {
        let r = built_region(ds[i], variant, cores)->0;
        assert(built_region(ds[i], variant, cores) is Some);
        let k = choose|k: int| 0 <= k < b.len() && b[k] == r;
        lemma_coalesce_ram_from(b, 0, None, r);
        let k2 = choose|k2: int| 0 <= k2 < c.len() && c[k2] == r;
        assert(c[k2].kind == RegionKind::Ram);
    } else {
        if holds_ram_of(c, ds[i]) {
            let k = choose|k: int|
                0 <= k < c.len() && (#[trigger] c[k]).kind == RegionKind::Ram && c[k].name == Some(ds[i].name@)
                    && c[k].start == ds[i].address && c[k].end == ds[i].address + ds[i].size;
            let r = c[k];
            lemma_coalesce_ram_from(b, 0, None, r);
            let j = choose|j: int| 0 <= j < b.len() && b[j] == r;
            let q = choose|q: int| 0 <= q < ds.len() && built_region(ds[q], variant, cores) == Some(b[j]);
            assert(ds[q].kind == crate::model::MemoryKind::Ram);
            assert(ds[q].name@ == ds[i].name@);
        }
    }
}

} // verus!
