//! Ordering memory descriptors by address, equal addresses in source order.

use vstd::prelude::*;
use crate::model::MemoryDescriptor;
use crate::region::descriptor_fits;

verus! {

/// Where `a` goes in `s` from `i` on: before the first descriptor with a
/// greater address.
pub open spec fn insert_pos(s: Seq<MemoryDescriptor>, a: u64, i: int) -> int
    decreases s.len() - i,
{
    if i < 0 || i >= s.len() || s[i].address > a {
        i
    } else {
        insert_pos(s, a, i + 1)
    }
}

/// The order in which inserting each descriptor after those with an
/// address not greater than its own leaves `ds`.
pub open spec fn insertion_order(ds: Seq<MemoryDescriptor>) -> Seq<MemoryDescriptor>
    decreases ds.len(),
{
    if ds.len() == 0 {
        Seq::empty()
    } else {
        let s = insertion_order(ds.drop_last());
        s.insert(insert_pos(s, ds.last().address, 0), ds.last())
    }
}

/// The descriptors of `s` at address `a`, in order.
pub open spec fn at_address(s: Seq<MemoryDescriptor>, a: u64) -> Seq<MemoryDescriptor>
    decreases s.len(),
{
    if s.len() == 0 {
        Seq::empty()
    } else if s.last().address == a {
        at_address(s.drop_last(), a).push(s.last())
    } else {
        at_address(s.drop_last(), a)
    }
}

/// `r` orders `ds` by address: ascending, and at every address the same
/// descriptors in the same order. So `r` is a permutation of `ds` that keeps
/// equal addresses in input order.
pub open spec fn stably_sorted(r: Seq<MemoryDescriptor>, ds: Seq<MemoryDescriptor>) -> bool {
    ascending(r) && forall|a: u64| #[trigger] at_address(r, a) == at_address(ds, a)
}

/// `ds` ordered by address, equal addresses in input order: the one
/// sequence that orders `ds` by address (see `lemma_stably_sorted_unique`).
pub open spec fn sorted_by_address(ds: Seq<MemoryDescriptor>) -> Seq<MemoryDescriptor> {
    choose|r: Seq<MemoryDescriptor>| stably_sorted(r, ds)
}

proof fn lemma_at_concat(s: Seq<MemoryDescriptor>, t: Seq<MemoryDescriptor>, a: u64)
    ensures
        at_address(s + t, a) == at_address(s, a) + at_address(t, a),
    decreases t.len(),
{
    if t.len() == 0 {
        assert(s + t =~= s);
        assert(at_address(s, a) + at_address(t, a) =~= at_address(s, a));
    } else {
        assert((s + t).drop_last() =~= s + t.drop_last());
        lemma_at_concat(s, t.drop_last(), a);
        if t.last().address == a {
            assert(at_address(s, a) + at_address(t.drop_last(), a).push(t.last()) =~= (at_address(s, a) + at_address(t.drop_last(), a)).push(t.last()));
        }
    }
}

proof fn lemma_at_count(s: Seq<MemoryDescriptor>, a: u64)
    ensures
        at_address(s, a).len() > 0 <==> exists|i: int| 0 <= i < s.len() && s[i].address == a,
        forall|i: int| 0 <= i < at_address(s, a).len() ==> (#[trigger] at_address(s, a)[i]).address == a,
    decreases s.len(),
{
    if s.len() > 0 {
        lemma_at_count(s.drop_last(), a);
        if exists|i: int| 0 <= i < s.drop_last().len() && s.drop_last()[i].address == a {
            let i = choose|i: int| 0 <= i < s.drop_last().len() && s.drop_last()[i].address == a;
            assert(s[i].address == a);
        }
        if exists|i: int| 0 <= i < s.len() && s[i].address == a {
            let i = choose|i: int| 0 <= i < s.len() && s[i].address == a;
            if i < s.len() - 1 {
                assert(s.drop_last()[i].address == a);
            }
        }
    }
}

proof fn lemma_at_insert(s: Seq<MemoryDescriptor>, p: int, x: MemoryDescriptor, a: u64)
    requires
        ascending(s),
        0 <= p <= s.len(),
        p < s.len() ==> s[p].address > x.address,
    ensures
        at_address(s.insert(p, x), a) == if x.address == a {
            at_address(s, a).push(x)
        } else {
            at_address(s, a)
        },
{
    let pre = s.subrange(0, p);
    let post = s.subrange(p, s.len() as int);
    assert(s.insert(p, x) =~= pre + seq![x] + post);
    assert(s =~= pre + post);
    lemma_at_concat(pre + seq![x], post, a);
    lemma_at_concat(pre, seq![x], a);
    lemma_at_concat(pre, post, a);
    assert(seq![x].drop_last() =~= Seq::<MemoryDescriptor>::empty());
    assert(seq![x].last() == x);
    assert(at_address(seq![x], a) == if x.address == a {
        at_address(Seq::<MemoryDescriptor>::empty(), a).push(x)
    } else {
        at_address(Seq::<MemoryDescriptor>::empty(), a)
    });
    assert(at_address(Seq::<MemoryDescriptor>::empty(), a) =~= Seq::<MemoryDescriptor>::empty());
    if x.address == a {
        lemma_at_count(post, a);
        assert forall|i: int| 0 <= i < post.len() implies post[i].address != a by {
            assert(post[i] == s[p + i]);
            if i > 0 {
                assert(s[p].address <= s[p + i].address);
            }
        }
        assert(at_address(post, a) =~= Seq::<MemoryDescriptor>::empty());
        assert(at_address(seq![x], a) =~= seq![x]);
        assert(at_address(pre, a) + seq![x] + Seq::<MemoryDescriptor>::empty() =~= (at_address(pre, a) + Seq::<MemoryDescriptor>::empty()).push(x));
    } else {
        assert(at_address(seq![x], a) =~= Seq::<MemoryDescriptor>::empty());
        assert(at_address(pre, a) + Seq::<MemoryDescriptor>::empty() + at_address(post, a) =~= at_address(pre, a) + at_address(post, a));
    }
}

proof fn lemma_insertion_stable(ds: Seq<MemoryDescriptor>)
    ensures
        stably_sorted(insertion_order(ds), ds),
    decreases ds.len(),
{
    lemma_insertion_ascending(ds);
    if ds.len() > 0 {
        lemma_insertion_stable(ds.drop_last());
        lemma_insertion_ascending(ds.drop_last());
        let s = insertion_order(ds.drop_last());
        let x = ds.last();
        lemma_insert_pos(s, x.address, 0);
        let p = insert_pos(s, x.address, 0);
        assert forall|a: u64| #[trigger] at_address(insertion_order(ds), a) == at_address(ds, a) by {
            lemma_at_insert(s, p, x, a);
            assert(at_address(s, a) == at_address(ds.drop_last(), a));
        }
    }
}

/// Only one sequence orders a list of descriptors by address.
pub proof fn lemma_stably_sorted_unique(r1: Seq<MemoryDescriptor>, r2: Seq<MemoryDescriptor>, ds: Seq<MemoryDescriptor>)
    requires
        stably_sorted(r1, ds),
        stably_sorted(r2, ds),
    ensures
        r1 == r2,
    decreases r1.len() + r2.len(),
{
    if r1.len() == 0 || r2.len() == 0 {
        if r1.len() > 0 {
            lemma_at_count(r1, r1[0].address);
            lemma_at_count(r2, r1[0].address);
            assert(at_address(r1, r1[0].address) == at_address(ds, r1[0].address));
            assert(at_address(r2, r1[0].address) == at_address(ds, r1[0].address));
        }
        if r2.len() > 0 {
            lemma_at_count(r1, r2[0].address);
            lemma_at_count(r2, r2[0].address);
            assert(at_address(r1, r2[0].address) == at_address(ds, r2[0].address));
            assert(at_address(r2, r2[0].address) == at_address(ds, r2[0].address));
        }
        assert(r1 =~= r2);
    } else {
        let x = r1.last();
        let y = r2.last();
        lemma_at_count(r1, y.address);
        lemma_at_count(r2, y.address);
        lemma_at_count(r1, x.address);
        lemma_at_count(r2, x.address);
        assert(at_address(r1, y.address) == at_address(ds, y.address));
        assert(at_address(r2, y.address) == at_address(ds, y.address));
        assert(at_address(r1, x.address) == at_address(ds, x.address));
        assert(at_address(r2, x.address) == at_address(ds, x.address));
        assert(r2[r2.len() - 1].address == y.address);
        assert(r1[r1.len() - 1].address == x.address);
        let i = choose|i: int| 0 <= i < r1.len() && r1[i].address == y.address;
        let j = choose|j: int| 0 <= j < r2.len() && r2[j].address == x.address;
        assert(r1[i].address <= r1[r1.len() - 1].address || i == r1.len() - 1);
        assert(r2[j].address <= r2[r2.len() - 1].address || j == r2.len() - 1);
        assert(x.address == y.address);
        let a = x.address;
        assert(x == y) by {
            assert(at_address(r1, a).last() == x);
            assert(at_address(r2, a).last() == y);
        }
        let t1 = r1.drop_last();
        let t2 = r2.drop_last();
        assert(ascending(t1));
        assert(ascending(t2));
        assert forall|b: u64| #[trigger] at_address(t1, b) == at_address(t2, b) by {
            assert(at_address(r1, b) == at_address(ds, b));
            assert(at_address(r2, b) == at_address(ds, b));
            if b == a {
                assert(at_address(t1, b) == at_address(r1, b).drop_last());
                assert(at_address(t2, b) == at_address(r2, b).drop_last());
            }
        }
        assert(stably_sorted(t1, t1));
        assert(stably_sorted(t2, t1));
        lemma_stably_sorted_unique(t1, t2, t1);
        assert(r1 =~= t1.push(x));
        assert(r2 =~= t2.push(y));
    }
}

/// The insertion order is the order by address.
pub proof fn lemma_insertion_sorts(ds: Seq<MemoryDescriptor>)
    ensures
        insertion_order(ds) == sorted_by_address(ds),
        stably_sorted(sorted_by_address(ds), ds),
{
    lemma_insertion_stable(ds);
    lemma_stably_sorted_unique(insertion_order(ds), sorted_by_address(ds), ds);
}

/// Addresses do not decrease along `s`.
pub open spec fn ascending(s: Seq<MemoryDescriptor>) -> bool {
    forall|i: int, j: int| 0 <= i < j < s.len() ==> s[i].address <= s[j].address
}

proof fn lemma_insert_pos(s: Seq<MemoryDescriptor>, a: u64, i: int)
    requires
        0 <= i <= s.len(),
        forall|j: int| 0 <= j < i ==> s[j].address <= a,
    ensures
        i <= insert_pos(s, a, i) <= s.len(),
        forall|j: int| 0 <= j < insert_pos(s, a, i) ==> s[j].address <= a,
        insert_pos(s, a, i) < s.len() ==> s[insert_pos(s, a, i)].address > a,
    decreases s.len() - i,
{
    if i < s.len() && s[i].address <= a {
        lemma_insert_pos(s, a, i + 1);
    }
}

proof fn lemma_insertion_ascending(ds: Seq<MemoryDescriptor>)
    ensures
        ascending(insertion_order(ds)),
        insertion_order(ds).len() == ds.len(),
    decreases ds.len(),
{
    if ds.len() > 0 {
        let s = insertion_order(ds.drop_last());
        lemma_insertion_ascending(ds.drop_last());
        let a = ds.last().address;
        lemma_insert_pos(s, a, 0);
        let p = insert_pos(s, a, 0);
        let t = s.insert(p, ds.last());
        assert forall|i: int, j: int| 0 <= i < j < t.len() implies t[i].address <= t[j].address by {
            if j < p {
            } else if j == p {
            } else if i < p {
                assert(s[i].address <= s[j - 1].address);
            } else if i == p {
                assert(s[p].address > a);
                assert(s[p].address <= s[j - 1].address || j - 1 == p);
            } else {
            }
        }
    }
}

/// A copy of a descriptor with the same value.
pub fn copy_descriptor(d: &MemoryDescriptor) -> (c: MemoryDescriptor)
    ensures
        c == *d,
{
    MemoryDescriptor {
        name: d.name.clone(),
        address: d.address,
        size: d.size,
        kind: d.kind,
        access: d.access,
    }
}

/// The descriptors in ascending address order; equal addresses keep their
/// source order.
pub fn sort_by_address(ds: &Vec<MemoryDescriptor>) -> (r: Vec<MemoryDescriptor>)
    ensures
        r@ == sorted_by_address(ds@),
        stably_sorted(r@, ds@),
        r@.len() == ds@.len(),
        (forall|i: int| 0 <= i < ds@.len() ==> descriptor_fits(#[trigger] ds@[i])) ==> (forall|i: int|
            0 <= i < r@.len() ==> descriptor_fits(#[trigger] r@[i])),
{
    let mut out: Vec<MemoryDescriptor> = Vec::new();
    let mut i: usize = 0;
    while i < ds.len()
        invariant
            i <= ds.len(),
            out@ == insertion_order(ds@.subrange(0, i as int)),
            (forall|j: int| 0 <= j < ds@.len() ==> descriptor_fits(#[trigger] ds@[j])) ==> (forall|j: int|
                0 <= j < out@.len() ==> descriptor_fits(#[trigger] out@[j])),
        decreases ds.len() - i,
    {
        assert(ds@.subrange(0, i + 1).drop_last() =~= ds@.subrange(0, i as int));
        let a = ds[i].address;
        let mut p: usize = 0;
        while p < out.len() && out[p].address <= a
            invariant
                p <= out@.len(),
                insert_pos(out@, a, 0) == insert_pos(out@, a, p as int),
            decreases out.len() - p,
        {
            p += 1;
        }
        let ghost before = out@;
        out.insert(p, copy_descriptor(&ds[i]));
        assert(out@ == before.insert(p as int, ds@[i as int]));
        proof {
            if forall|j: int| 0 <= j < ds@.len() ==> descriptor_fits(#[trigger] ds@[j]) {
                assert(descriptor_fits(ds@[i as int]));
                assert forall|j: int| 0 <= j < out@.len() implies descriptor_fits(#[trigger] out@[j]) by {
                    if j < p {
                        assert(out@[j] == before[j]);
                    } else if j > p {
                        assert(out@[j] == before[j - 1]);
                    }
                }
            }
        }
        i += 1;
    }
    assert(ds@.subrange(0, ds@.len() as int) =~= ds@);
    proof {
        lemma_insertion_ascending(ds@);
        lemma_insertion_sorts(ds@);
    }
    out
}

} // verus!
