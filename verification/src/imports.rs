//! Rust imports written in Desert: `import rust/std/cmp/max`,
//! `import "rust:std::io::Read"`, `from rust/std/cmp import max as m`.
use vstd::prelude::*;
use vstd::string::StrSliceExecFns;
use crate::ast::{ImportItem, SImport, import_view};
use crate::text::{
    chars_of, find_first, find_last, index_of, join, last_index_of, last_occ, occurs_at, push_char, push_str,
    string_of_range, string_views, join_strings,
};

verus! {

/// The text after a `rust/` or `rust:` prefix.
pub open spec fn strip_rust_prefix(p: Seq<char>) -> Option<Seq<char>> {
    if p.len() >= 5 && p[0] == 'r' && p[1] == 'u' && p[2] == 's' && p[3] == 't' && (p[4] == '/' || p[4] == ':') {
        Some(p.subrange(5, p.len() as int))
    } else {
        None
    }
}

/// Every `/` replaced by `::`.
pub open spec fn slash_to_colons(s: Seq<char>) -> Seq<char>
    decreases s.len(),
{
    if s.len() == 0 {
        seq![]
    } else {
        slash_to_colons(s.drop_last()) + (if s.last() == '/' { seq![':', ':'] } else { seq![s.last()] })
    }
}

/// `s` without its leading `:` characters.
pub open spec fn trim_start_colons(s: Seq<char>) -> Seq<char>
    decreases s.len(),
{
    if s.len() > 0 && s[0] == ':' { trim_start_colons(s.drop_first()) } else { s }
}

/// `s` without its trailing `:` characters.
pub open spec fn trim_end_colons(s: Seq<char>) -> Seq<char>
    decreases s.len(),
{
    if s.len() > 0 && s.last() == ':' { trim_end_colons(s.drop_last()) } else { s }
}

/// The Rust `use` path an import path names: the text after `rust/` or
/// `rust:`, with `/` written as `::` and surrounding colons trimmed; `None`
/// for a path that is not a Rust import or names nothing.
pub open spec fn spec_use_path(p: Seq<char>) -> Option<Seq<char>> {
    match strip_rust_prefix(p) {
        None => None,
        Some(raw) => {
            let t = trim_end_colons(trim_start_colons(slash_to_colons(raw)));
            if t.len() == 0 { None } else { Some(t) }
        },
    }
}

/// The name a `use` path binds: the alias after the last ` as ` when it is
/// neither empty nor `*`, else the segment after the last `::`; `None` for
/// an empty or glob segment.
pub open spec fn spec_binding_name(u: Seq<char>) -> Option<Seq<char>> {
    let j = last_index_of(u, seq![' ', 'a', 's', ' ']);
    let alias = u.subrange(j + 4, u.len() as int);
    if j >= 0 && alias.len() > 0 && alias != seq!['*'] {
        Some(alias)
    } else {
        let k = last_index_of(u, seq![':', ':']);
        let name = if k >= 0 { u.subrange(k + 2, u.len() as int) } else { u };
        if name.len() == 0 || name == seq!['*'] { None } else { Some(name) }
    }
}

/// The first segment of a `use` path.
pub open spec fn root_of(u: Seq<char>) -> Seq<char> {
    let k = index_of(u, seq![':', ':']);
    if k >= 0 { u.subrange(0, k) } else { u }
}

pub open spec fn spec_supported_root(u: Seq<char>) -> bool {
    let r = root_of(u);
    r == seq!['s', 't', 'd'] || r == seq!['c', 'o', 'r', 'e'] || r == seq!['a', 'l', 'l', 'o', 'c']
}

pub open spec fn as_text() -> Seq<char> {
    seq![' ', 'a', 's', ' ']
}

/// A `use` path with an optional ` as alias`.
pub open spec fn with_alias(base: Seq<char>, alias: Option<Seq<char>>) -> Seq<char> {
    match alias {
        Some(a) => base + as_text() + a,
        None => base,
    }
}

pub open spec fn item_text(i: SImport) -> Seq<char> {
    with_alias(i.name, i.alias)
}

pub open spec fn items_text(items: Seq<SImport>) -> Seq<Seq<char>> {
    items.map_values(|i: SImport| item_text(i))
}

/// `base::{a as b, c}` for the items of a from-import.
pub open spec fn spec_use_list(base: Seq<char>, items: Seq<SImport>) -> Seq<char> {
    base + seq![':', ':', '{'] + join(items_text(items), seq![',', ' ']) + seq!['}']
}

proof fn lemma_trim_start(s: Seq<char>, i: int)
    requires
        0 <= i <= s.len(),
        forall|j: int| 0 <= j < i ==> s[j] == ':',
    ensures
        trim_start_colons(s) == trim_start_colons(s.subrange(i, s.len() as int)),
    decreases i,
{
    if i > 0 {
        assert(s.drop_first().subrange(i - 1, s.len() - 1) =~= s.subrange(i, s.len() as int));
        lemma_trim_start(s.drop_first(), i - 1);
    } else {
        assert(s.subrange(0, s.len() as int) =~= s);
    }
}

proof fn lemma_trim_end(s: Seq<char>, j: int)
    requires
        0 <= j <= s.len(),
        forall|k: int| j <= k < s.len() ==> s[k] == ':',
    ensures
        trim_end_colons(s) == trim_end_colons(s.subrange(0, j)),
    decreases s.len() - j,
{
    if j < s.len() {
        assert(s.drop_last().subrange(0, j) =~= s.subrange(0, j));
        lemma_trim_end(s.drop_last(), j);
    } else {
        assert(s.subrange(0, j) =~= s);
    }
}

/// The Rust `use` path for a Desert import path (see `spec_use_path`).
pub fn rust_use_from_import_path(path: &str) -> (r: Option<String>)
    ensures
        match r {
            Some(s) => spec_use_path(path@) == Some(s@),
            None => spec_use_path(path@) is None,
        },
{
    let v = chars_of(path);
    if !(v.len() >= 5 && v[0] == 'r' && v[1] == 'u' && v[2] == 's' && v[3] == 't' && (v[4] == '/' || v[4] == ':')) {
        return None;
    }
    let ghost raw = v@.subrange(5, v.len() as int);
    let mut norm: Vec<char> = Vec::new();
    let mut i: usize = 5;
    while i < v.len()
        invariant
            5 <= i <= v.len(),
            raw == v@.subrange(5, v.len() as int),
            norm@ == slash_to_colons(raw.take(i - 5)),
        decreases v.len() - i,
    {
        assert(raw.take(i - 4).drop_last() =~= raw.take(i - 5));
        if v[i] == '/' {
            norm.push(':');
            norm.push(':');
        } else {
            norm.push(v[i]);
        }
        assert(norm@ =~= slash_to_colons(raw.take(i - 4)));
        i = i + 1;
    }
    assert(raw.take(i - 5) =~= raw);
    let mut start: usize = 0;
    while start < norm.len() && norm[start] == ':'
        invariant
            0 <= start <= norm.len(),
            forall|j: int| 0 <= j < start ==> norm@[j] == ':',
        decreases norm.len() - start,
    {
        start = start + 1;
    }
    proof { lemma_trim_start(norm@, start as int); }
    let ghost rest = norm@.subrange(start as int, norm.len() as int);
    assert(trim_start_colons(rest) == rest);
    let mut end: usize = norm.len();
    while end > start && norm[end - 1] == ':'
        invariant
            start <= end <= norm.len(),
            forall|k: int| end <= k < norm.len() ==> norm@[k] == ':',
        decreases end,
    {
        end = end - 1;
    }
    proof {
        lemma_trim_end(rest, end - start);
        assert(rest.subrange(0, end - start) =~= norm@.subrange(start as int, end as int));
        let t = norm@.subrange(start as int, end as int);
        assert(trim_end_colons(t) == t);
    }
    if end == start {
        return None;
    }
    Some(string_of_range(norm.as_slice(), start, end))
}

/// The name a Rust `use` path binds (see `spec_binding_name`).
pub fn rust_import_binding_name(use_path: &str) -> (r: Option<&str>)
    ensures
        match r {
            Some(s) => spec_binding_name(use_path@) == Some(s@),
            None => spec_binding_name(use_path@) is None,
        },
{
    let v = chars_of(use_path);
    let as_pat = vec![' ', 'a', 's', ' '];
    assert(as_pat@ =~= seq![' ', 'a', 's', ' ']);
    if let Some(j) = find_last(v.as_slice(), as_pat.as_slice()) {
        let alias = use_path.substring_char(j + 4, v.len());
        if alias.unicode_len() > 0 && !(alias.unicode_len() == 1 && alias.get_char(0) == '*') {
            assert(alias@ != seq!['*']);
            return Some(alias);
        }
        assert(alias@.len() == 0 || alias@ =~= seq!['*']);
    }
    let sep = vec![':', ':'];
    assert(sep@ =~= seq![':', ':']);
    let name = match find_last(v.as_slice(), sep.as_slice()) {
        Some(k) => use_path.substring_char(k + 2, v.len()),
        None => use_path,
    };
    if name.unicode_len() == 0 || (name.unicode_len() == 1 && name.get_char(0) == '*') {
        assert(name@.len() == 0 || name@ =~= seq!['*']);
        None
    } else {
        assert(name@ != seq!['*']);
        Some(name)
    }
}

/// Whether a `use` path starts at `std`, `core` or `alloc`.
pub fn is_supported_rust_root(use_path: &str) -> (r: bool)
    ensures
        r == spec_supported_root(use_path@),
{
    let v = chars_of(use_path);
    let sep = vec![':', ':'];
    assert(sep@ =~= seq![':', ':']);
    let end = match find_first(v.as_slice(), sep.as_slice()) {
        Some(k) => k,
        None => v.len(),
    };
    let ghost root = v@.subrange(0, end as int);
    assert(root =~= root_of(use_path@));
    if end == 3 {
        let r = v[0] == 's' && v[1] == 't' && v[2] == 'd';
        assert(root =~= seq![v@[0], v@[1], v@[2]]);
        r
    } else if end == 4 {
        let r = v[0] == 'c' && v[1] == 'o' && v[2] == 'r' && v[3] == 'e';
        assert(root =~= seq![v@[0], v@[1], v@[2], v@[3]]);
        r
    } else if end == 5 {
        let r = v[0] == 'a' && v[1] == 'l' && v[2] == 'l' && v[3] == 'o' && v[4] == 'c';
        assert(root =~= seq![v@[0], v@[1], v@[2], v@[3], v@[4]]);
        r
    } else {
        false
    }
}

/// The first segment of a `use` path (see `root_of`).
pub(crate) fn use_root(use_path: &str) -> (r: String)
    ensures
        r@ == root_of(use_path@),
{
    let v = chars_of(use_path);
    let sep = vec![':', ':'];
    assert(sep@ =~= seq![':', ':']);
    let end = match find_first(v.as_slice(), sep.as_slice()) {
        Some(k) => k,
        None => v.len(),
    };
    string_of_range(v.as_slice(), 0, end)
}

fn push_as(out: &mut String)
    ensures
        final(out)@ == old(out)@ + as_text(),
{
    push_char(out, ' ');
    push_char(out, 'a');
    push_char(out, 's');
    push_char(out, ' ');
    assert(final(out)@ =~= old(out)@ + as_text());
}


proof fn lemma_last_as(u: Seq<char>, b: int, k: int)
    requires
        0 <= b <= k,
        b + 4 <= u.len(),
        occurs_at(u, b, as_text()),
        forall|i: int| b + 4 <= i < u.len() ==> u[i] != ' ',
    ensures
        last_occ(u, as_text(), k) == b,
    decreases k - b,
{
    if k > b {
        if occurs_at(u, k, as_text()) {
            assert(u.subrange(k, k + 4)[0] == ' ');
            assert(u[k] == ' ');
            if k >= b + 4 {
                assert(false);
            } else {
                assert(u.subrange(b, b + 4) == as_text());
                assert(u[b + 1] == 'a' && u[b + 2] == 's' && u[b + 3] == ' ');
                assert(k == b + 3);
                assert(u.subrange(k, k + 4)[3] == ' ');
                assert(u[k + 3] == ' ');
                assert(false);
            }
        }
        lemma_last_as(u, b, k - 1);
    }
}

/// An aliased Rust import binds its alias: `import rust... as name` and
/// `from rust... import x as name` make `name` visible, whatever the path,
/// for any alias that is a single word other than `*`.
pub proof fn law_alias_is_bound(base: Seq<char>, alias: Seq<char>)
    requires
        alias.len() > 0,
        alias != seq!['*'],
        forall|i: int| 0 <= i < alias.len() ==> alias[i] != ' ',
    ensures
        spec_binding_name(with_alias(base, Some(alias))) == Some(alias),
{
    let u = with_alias(base, Some(alias));
    let b = base.len() as int;
    assert(u.subrange(b, b + 4) =~= as_text());
    assert forall|i: int| b + 4 <= i < u.len() implies u[i] != ' ' by {
        assert(u[i] == alias[i - b - 4]);
    }
    lemma_last_as(u, b, u.len() - 4);
    assert(u.subrange(b + 4, u.len() as int) =~= alias);
}

/// Without an alias, the `use` path of an import is the path itself:
/// `rust_use_from_import(p, None)` gives what `rust_use_from_import_path(p)`
/// gives.
pub proof fn law_unaliased_import(base: Seq<char>)
    ensures
        with_alias(base, None) == base,
{
}

/// The Rust `use` path of `import path [as alias]`, when `path` is a Rust
/// import.
pub fn rust_use_from_import(path: &str, alias: Option<&str>) -> (r: Option<String>)
    ensures
        match r {
            Some(s) => spec_use_path(path@) matches Some(b) && s@ == with_alias(b, match alias {
                Some(a) => Some(a@),
                None => None,
            }),
            None => spec_use_path(path@) is None,
        },
{
    let mut base = match rust_use_from_import_path(path) {
        None => return None,
        Some(b) => b,
    };
    if let Some(a) = alias {
        push_as(&mut base);
        push_str(&mut base, a);
    }
    Some(base)
}

/// `name` or `name as alias` for one from-import item.
pub fn import_item_text(item: &ImportItem) -> (r: String)
    ensures
        r@ == item_text(import_view(*item)),
{
    let mut out = item.name.clone();
    if let Some(a) = &item.alias {
        push_as(&mut out);
        push_str(&mut out, a.as_str());
    }
    out
}

/// The Rust `use` list of `from path import items`, when `path` is a Rust
/// import: `base::{a as b, c}`.
pub fn rust_use_from_from_import(path: &str, items: &[ImportItem]) -> (r: Option<String>)
    ensures
        match r {
            Some(s) => spec_use_path(path@) matches Some(b) && s@ == spec_use_list(b, items@.map_values(|i: ImportItem| import_view(i))),
            None => spec_use_path(path@) is None,
        },
{
    let mut out = match rust_use_from_import_path(path) {
        None => return None,
        Some(b) => b,
    };
    let ghost sitems = items@.map_values(|i: ImportItem| import_view(i));
    let mut parts: Vec<String> = Vec::new();
    let mut i: usize = 0;
    while i < items.len()
        invariant
            0 <= i <= items.len(),
            sitems == items@.map_values(|i: ImportItem| import_view(i)),
            string_views(parts@) == items_text(sitems.take(i as int)),
        decreases items.len() - i,
    {
        let t = import_item_text(&items[i]);
        let ghost before = parts@;
        parts.push(t);
        proof {
            let ii = i as int;
            assert(sitems.take(ii + 1) =~= sitems.take(ii).push(sitems[ii]));
            assert(items_text(sitems.take(ii).push(sitems[ii])) =~= items_text(sitems.take(ii)).push(item_text(sitems[ii])));
            assert(string_views(parts@) =~= string_views(before).push(t@));
        }
        i = i + 1;
    }
    assert(sitems.take(i as int) =~= sitems);
    let joined = join_strings(&parts, ", ");
    let ghost b = out@;
    push_char(&mut out, ':');
    push_char(&mut out, ':');
    push_char(&mut out, '{');
    push_str(&mut out, joined.as_str());
    push_char(&mut out, '}');
    proof {
        reveal_strlit(", ");
        assert(", "@ =~= seq![',', ' ']);
    }
    assert(out@ =~= spec_use_list(b, sitems));
    Some(out)
}

} // verus!
