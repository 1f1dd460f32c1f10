//! Line-level canonical form of a serialized family document, which keeps
//! generated output stable under regeneration.

use vstd::prelude::*;
use crate::text::{
    ends_with, find_from, find_str, has_char, has_suffix, lemma_replace_removes, replace_all,
    replace_char, str_eq,
};

verus! {

/// Number of leading spaces of a line.
pub open spec fn indent(l: Seq<char>) -> nat
    decreases l.len(),
{
    if l.len() > 0 && l[0] == ' ' {
        1 + indent(l.drop_first())
    } else {
        0
    }
}

/// `l` without leading spaces.
pub open spec fn trim_start(l: Seq<char>) -> Seq<char>
    decreases l.len(),
{
    if l.len() > 0 && l[0] == ' ' {
        trim_start(l.drop_first())
    } else {
        l
    }
}

/// `l` without trailing spaces.
pub open spec fn trim_end(l: Seq<char>) -> Seq<char>
    decreases l.len(),
{
    if l.len() > 0 && l.last() == ' ' {
        trim_end(l.drop_last())
    } else {
        l
    }
}

/// `l` without leading and trailing spaces.
pub open spec fn trimmed(l: Seq<char>) -> Seq<char> {
    trim_end(trim_start(l))
}

/// The trimmed line sets a key to null, an empty list, an empty map or false.
pub open spec fn empty_value(t: Seq<char>) -> bool {
    has_suffix(t, ": null"@) || has_suffix(t, ": []"@) || has_suffix(t, ": {}"@) || has_suffix(
        t,
        ": false"@,
    )
}

/// Empty values that carry meaning and are kept.
pub open spec fn meaningful_empty(t: Seq<char>) -> bool {
    t == "rtt_scan_ranges: []"@ || t == "read: false"@ || t == "write: false"@ || t
        == "execute: false"@
}

/// Access flags at their default value.
pub open spec fn default_flag(t: Seq<char>) -> bool {
    t == "read: true"@ || t == "write: true"@ || t == "execute: true"@
}

/// The line survives the first pass.
pub open spec fn line_kept(l: Seq<char>) -> bool {
    let t = trimmed(l);
    !(empty_value(t) && !meaningful_empty(t)) && !default_flag(t)
}

/// The line holds a single-quoted hexadecimal scalar and ends with a quote.
pub open spec fn quoted_hex(l: Seq<char>) -> bool {
    (find_from(l, "'0x"@, 0) is Some || find_from(l, "'0X"@, 0) is Some) && l.len() > 0 && l.last()
        == '\''
}

/// The line with the quotes of a quoted hexadecimal scalar removed.
pub open spec fn unquoted(l: Seq<char>) -> Seq<char> {
    if quoted_hex(l) {
        replace_char(l, '\'', Seq::empty())
    } else {
        l
    }
}

/// First pass: unquote hexadecimal scalars, then drop empty values and
/// default access flags.
pub open spec fn first_pass(ls: Seq<Seq<char>>) -> Seq<Seq<char>>
    decreases ls.len(),
{
    if ls.len() == 0 {
        Seq::empty()
    } else {
        let n = unquoted(ls[0]);
        if line_kept(n) {
            seq![n] + first_pass(ls.drop_first())
        } else {
            first_pass(ls.drop_first())
        }
    }
}

/// The line is an `access:` header.
pub open spec fn access_header(l: Seq<char>) -> bool {
    trimmed(l) == "access:"@
}

/// Second pass: drop each `access:` header whose next retained line is not
/// indented deeper than the header.
pub open spec fn second_pass(ls: Seq<Seq<char>>) -> Seq<Seq<char>>
    decreases ls.len(),
{
    if ls.len() == 0 {
        Seq::empty()
    } else {
        let rest = second_pass(ls.drop_first());
        if access_header(ls[0]) && !(rest.len() > 0 && indent(rest[0]) > indent(ls[0])) {
            rest
        } else {
            seq![ls[0]] + rest
        }
    }
}

/// The canonical form of a document given as its lines.
pub open spec fn canonical(ls: Seq<Seq<char>>) -> Seq<Seq<char>> {
    second_pass(first_pass(ls))
}

/// A line that the first pass keeps as it is.
pub open spec fn settled(l: Seq<char>) -> bool {
    line_kept(l) && unquoted(l) == l
}

proof fn lemma_unquoted_settles(l: Seq<char>)
    ensures
        unquoted(unquoted(l)) == unquoted(l),
{
    if quoted_hex(l) {
        let u = replace_char(l, '\'', Seq::empty());
        lemma_replace_removes(l, '\'', Seq::empty());
        if u.len() > 0 {
            assert(u[u.len() - 1] != '\'');
        }
    }
}

proof fn lemma_first_pass_settled(ls: Seq<Seq<char>>)
    ensures
        forall|i: int| 0 <= i < first_pass(ls).len() ==> settled(#[trigger] first_pass(ls)[i]),
    decreases ls.len(),
{
    if ls.len() > 0 {
        lemma_first_pass_settled(ls.drop_first());
        lemma_unquoted_settles(ls[0]);
        let n = unquoted(ls[0]);
        let r = first_pass(ls.drop_first());
        if line_kept(n) {
            assert forall|i: int| 0 <= i < (seq![n] + r).len() implies settled(#[trigger] (seq![n] + r)[i]) by {
                if i > 0 {
                    assert((seq![n] + r)[i] == r[i - 1]);
                }
            }
        }
    }
}

proof fn lemma_first_pass_fixed(ls: Seq<Seq<char>>)
    requires
        forall|i: int| 0 <= i < ls.len() ==> settled(#[trigger] ls[i]),
    ensures
        first_pass(ls) == ls,
    decreases ls.len(),
{
    if ls.len() > 0 {
        assert(settled(ls[0]));
        assert forall|i: int| 0 <= i < ls.drop_first().len() implies settled(#[trigger] ls.drop_first()[i]) by {
            assert(ls.drop_first()[i] == ls[i + 1]);
        }
        lemma_first_pass_fixed(ls.drop_first());
        assert(seq![ls[0]] + ls.drop_first() =~= ls);
    }
}

proof fn lemma_second_pass_settled(ls: Seq<Seq<char>>)
    requires
        forall|i: int| 0 <= i < ls.len() ==> settled(#[trigger] ls[i]),
    ensures
        forall|i: int| 0 <= i < second_pass(ls).len() ==> settled(#[trigger] second_pass(ls)[i]),
    decreases ls.len(),
{
    if ls.len() > 0 {
        assert forall|i: int| 0 <= i < ls.drop_first().len() implies settled(#[trigger] ls.drop_first()[i]) by {
            assert(ls.drop_first()[i] == ls[i + 1]);
        }
        lemma_second_pass_settled(ls.drop_first());
        let rest = second_pass(ls.drop_first());
        assert(settled(ls[0]));
        assert forall|i: int| 0 <= i < (seq![ls[0]] + rest).len() implies settled(#[trigger] (seq![ls[0]] + rest)[i]) by {
            if i > 0 {
                assert((seq![ls[0]] + rest)[i] == rest[i - 1]);
            }
        }
    }
}

proof fn lemma_second_pass_idempotent(ls: Seq<Seq<char>>)
    ensures
        second_pass(second_pass(ls)) == second_pass(ls),
    decreases ls.len(),
{
    if ls.len() > 0 {
        lemma_second_pass_idempotent(ls.drop_first());
        let rest = second_pass(ls.drop_first());
        if !(access_header(ls[0]) && !(rest.len() > 0 && indent(rest[0]) > indent(ls[0]))) {
            let s = seq![ls[0]] + rest;
            assert(s.drop_first() =~= rest);
            assert(s[0] == ls[0]);
        }
    }
}

/// Canonicalizing a canonical document changes nothing.
pub proof fn lemma_canonical_idempotent(ls: Seq<Seq<char>>)
    ensures
        canonical(canonical(ls)) == canonical(ls),
{
    let f = first_pass(ls);
    lemma_first_pass_settled(ls);
    lemma_second_pass_settled(f);
    lemma_first_pass_fixed(second_pass(f));
    lemma_second_pass_idempotent(f);
}

/// Number of leading spaces of `l`.
pub fn indentation(l: &str) -> (r: usize)
    ensures
        r == indent(l@),
{
    let n = l.unicode_len();
    let mut i: usize = 0;
    assert(l@.subrange(0, n as int) =~= l@);
    while i < n && l.get_char(i) == ' '
        invariant
            n == l@.len(),
            i <= n,
            indent(l@) == i + indent(l@.subrange(i as int, n as int)),
        decreases n - i,
    {
        assert(l@.subrange(i as int, n as int).drop_first() =~= l@.subrange(i + 1, n as int));
        i += 1;
    }
    i
}

/// `l` without leading and trailing spaces.
pub fn trim_spaces(l: &str) -> (r: String)
    ensures
        r@ == trimmed(l@),
{
    let n = l.unicode_len();
    let mut i: usize = 0;
    assert(l@.subrange(0, n as int) =~= l@);
    while i < n && l.get_char(i) == ' '
        invariant
            n == l@.len(),
            i <= n,
            trim_start(l@) == trim_start(l@.subrange(i as int, n as int)),
        decreases n - i,
    {
        assert(l@.subrange(i as int, n as int).drop_first() =~= l@.subrange(i + 1, n as int));
        i += 1;
    }
    let mut j: usize = n;
    while j > i && l.get_char(j - 1) == ' '
        invariant
            n == l@.len(),
            i <= j <= n,
            trim_end(l@.subrange(i as int, n as int)) == trim_end(l@.subrange(i as int, j as int)),
        decreases j,
    {
        assert(l@.subrange(i as int, j as int).drop_last() =~= l@.subrange(i as int, j - 1));
        j -= 1;
    }
    crate::text::substring(l, i, j)
}

/// Whether the first pass keeps line `l`.
pub fn keeps_line(l: &str) -> (r: bool)
    ensures
        r == line_kept(l@),
{
    let t = trim_spaces(l);
    let t = t.as_str();
    let empty = ends_with(t, ": null") || ends_with(t, ": []") || ends_with(t, ": {}") || ends_with(
        t,
        ": false",
    );
    let meaningful = str_eq(t, "rtt_scan_ranges: []") || str_eq(t, "read: false") || str_eq(
        t,
        "write: false",
    ) || str_eq(t, "execute: false");
    let default = str_eq(t, "read: true") || str_eq(t, "write: true") || str_eq(t, "execute: true");
    !(empty && !meaningful) && !default
}

/// `l` with the quotes of a quoted hexadecimal scalar removed.
pub fn unquote_line(l: &str) -> (r: String)
    ensures
        r@ == unquoted(l@),
{
    let n = l.unicode_len();
    let hex = find_str(l, "'0x").is_some() || find_str(l, "'0X").is_some();
    if hex && n > 0 && l.get_char(n - 1) == '\'' {
        let r = replace_all(l, '\'', "");
        proof {
            reveal_strlit("");
            assert(""@ =~= Seq::<char>::empty());
        }
        r
    } else {
        String::from_str(l)
    }
}

/// Whether `l` is an `access:` header.
pub fn is_access_header(l: &str) -> (r: bool)
    ensures
        r == access_header(l@),
{
    let t = trim_spaces(l);
    str_eq(t.as_str(), "access:")
}

/// The canonical form of a document given as its lines.
pub fn canonicalize(lines: &Vec<String>) -> (r: Vec<String>)
    ensures
        r.deep_view() == canonical(lines.deep_view()),
{
    let ghost ls = lines.deep_view();
    let mut first: Vec<String> = Vec::new();
    let mut i: usize = 0;
    assert(first.deep_view() + first_pass(ls.subrange(0, ls.len() as int)) =~= first_pass(ls)) by {
        assert(ls.subrange(0, ls.len() as int) =~= ls);
    }
    while i < lines.len()
        invariant
            i <= lines.len(),
            ls == lines.deep_view(),
            first_pass(ls) == first.deep_view() + first_pass(ls.subrange(i as int, ls.len() as int)),
        decreases lines.len() - i,
    {
        assert(ls.subrange(i as int, ls.len() as int).drop_first() =~= ls.subrange(i + 1, ls.len() as int));
        assert(ls.subrange(i as int, ls.len() as int)[0] == ls[i as int]);
        let ghost before = first.deep_view();
        let n = unquote_line(lines[i].as_str());
        if keeps_line(n.as_str()) {
            first.push(n);
            assert(first.deep_view() =~= before + seq![unquoted(ls[i as int])]);
        }
        i += 1;
    }
    assert(first.deep_view() + first_pass(ls.subrange(ls.len() as int, ls.len() as int)) =~= first.deep_view());
    let ghost f = first.deep_view();
    let mut out: Vec<String> = Vec::new();
    let mut k: usize = first.len();
    assert(f.subrange(k as int, f.len() as int) =~= Seq::<Seq<char>>::empty());
    while k > 0
        invariant
            k <= first.len(),
            f == first.deep_view(),
            out.deep_view() == second_pass(f.subrange(k as int, f.len() as int)),
        decreases k,
    {
        assert(f.subrange(k - 1, f.len() as int).drop_first() =~= f.subrange(k as int, f.len() as int));
        assert(f.subrange(k - 1, f.len() as int)[0] == f[k - 1]);
        let l = first[k - 1].as_str();
        let drop = is_access_header(l) && !(out.len() > 0 && indentation(out[0].as_str())
            > indentation(l));
        if !drop {
            let ghost before = out.deep_view();
            out.insert(0, first[k - 1].clone());
            assert(out.deep_view() =~= seq![f[k - 1]] + before);
        }
        k -= 1;
    }
    assert(f.subrange(0, f.len() as int) =~= f);
    out
}

} // verus!
