//! Deriving concrete chip names from a part-number root and its suffixes.

use vstd::prelude::*;
use crate::text::{has_char, replace_all, replace_char};

verus! {

/// A device of the legacy source: its part-number root, canonical id and
/// the suffixes of its variants.
#[derive(Debug)]
pub struct Device {
    pub part_number_root: String,
    pub device_id: String,
    pub variant_suffixes: Vec<String>,
}

/// A concrete chip name paired with the canonical id of its device.
#[derive(Debug)]
pub struct NamedVariant {
    pub device_id: String,
    pub full_name: String,
}

/// The full name of a variant: the root with each placeholder `-` replaced
/// by the suffix, or the root followed by the suffix where it has none.
pub open spec fn full_name(root: Seq<char>, suffix: Seq<char>) -> Seq<char> {
    if has_char(root, '-') {
        replace_char(root, '-', suffix)
    } else {
        root + suffix
    }
}

/// The full name of the variant of `root` with suffix `suffix`.
pub fn variant_name(root: &str, suffix: &str) -> (r: String)
    ensures
        r@ == full_name(root@, suffix@),
{
    let replaced = replace_all(root, '-', suffix);
    let n = root.unicode_len();
    let mut i: usize = 0;
    while i < n
        invariant
            n == root@.len(),
            i <= n,
            replaced@ == replace_char(root@, '-', suffix@),
            forall|j: int| 0 <= j < i ==> root@[j] != '-',
        decreases n - i,
    {
        if root.get_char(i) == '-' {
            assert(has_char(root@, '-'));
            return replaced;
        }
        i += 1;
    }
    String::from_str(root).concat(suffix)
}

/// One `(device id, full name)` pair for each variant suffix of `device`, in
/// order.
pub fn derive_names(device: &Device) -> (r: Vec<NamedVariant>)
    ensures
        r@.len() == device.variant_suffixes@.len(),
        forall|i: int|
            0 <= i < r@.len() ==> (#[trigger] r@[i]).device_id@ == device.device_id@ && r@[i].full_name@
                == full_name(device.part_number_root@, device.variant_suffixes@[i]@),
{
    let mut r: Vec<NamedVariant> = Vec::new();
    let mut i: usize = 0;
    while i < device.variant_suffixes.len()
        invariant
            i <= device.variant_suffixes@.len(),
            r@.len() == i,
            forall|j: int|
                0 <= j < i ==> (#[trigger] r@[j]).device_id@ == device.device_id@ && r@[j].full_name@
                    == full_name(device.part_number_root@, device.variant_suffixes@[j]@),
        decreases device.variant_suffixes.len() - i,
    {
        let name = variant_name(device.part_number_root.as_str(), device.variant_suffixes[i].as_str());
        r.push(NamedVariant { device_id: device.device_id.clone(), full_name: name });
        i += 1;
    }
    r
}

/// One `(device id, device id followed by package)` pair for each package
/// name, in order.
pub fn package_names(device_id: &str, packages: &Vec<String>) -> (r: Vec<NamedVariant>)
    ensures
        r@.len() == packages@.len(),
        forall|i: int|
            0 <= i < r@.len() ==> (#[trigger] r@[i]).device_id@ == device_id@ && r@[i].full_name@
                == device_id@ + packages@[i]@,
{
    let mut r: Vec<NamedVariant> = Vec::new();
    let mut i: usize = 0;
    while i < packages.len()
        invariant
            i <= packages@.len(),
            r@.len() == i,
            forall|j: int|
                0 <= j < i ==> (#[trigger] r@[j]).device_id@ == device_id@ && r@[j].full_name@
                    == device_id@ + packages@[j]@,
        decreases packages.len() - i,
    {
        let name = String::from_str(device_id).concat(packages[i].as_str());
        r.push(NamedVariant { device_id: String::from_str(device_id), full_name: name });
        i += 1;
    }
    r
}

} // verus!
