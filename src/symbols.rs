//! Symbol records from the tagger, the kinds of symbol that are renamed,
//! the longest-first order of their names, and the path list the tagger
//! reads.
use vstd::prelude::*;

use byte_slice_cast::AsByteSlice;

use crate::names::{longest_first, views};

verus! {

/// One symbol record: its name, the file it was found in, and its kind.
pub struct Tag {
    pub name: String,
    pub path: String,
    pub kind: String,
}

/// The kinds of symbol whose names are renamed.
pub open spec fn symbol_kinds() -> Seq<Seq<char>> {
    seq!["variable"@, "function"@, "local"@, "parameter"@]
}

/// Whether two strings hold the same characters.
pub fn same_text(a: &str, b: &str) -> (r: bool)
    ensures
        r == (a@ == b@),
{
    let n = a.unicode_len();
    if n != b.unicode_len() {
        return false;
    }
    let mut i: usize = 0;
    while i < n
        invariant
            n == a@.len(),
            n == b@.len(),
            i <= n,
            forall|j: int| 0 <= j < i ==> a@[j] == b@[j],
        decreases n - i,
    {
        if a.get_char(i) != b.get_char(i) {
            return false;
        }
        i = i + 1;
    }
    assert(a@ =~= b@);
    true
}

/// Whether `kind` is one of the kinds of symbol that are renamed.
pub fn is_symbol_kind(kind: &str) -> (r: bool)
    ensures
        r == symbol_kinds().contains(kind@),
{
    let r = same_text(kind, "variable") || same_text(kind, "function") || same_text(kind, "local")
        || same_text(kind, "parameter");
    proof {
        let k = symbol_kinds();
        if r {
            if kind@ == k[0] {
                assert(k.contains(kind@));
            } else if kind@ == k[1] {
                assert(k.contains(kind@));
            } else if kind@ == k[2] {
                assert(k.contains(kind@));
            } else {
                assert(k[3] == kind@);
            }
        } else {
            assert(!k.contains(kind@));
        }
    }
    r
}

/// The names of the records of an accepted kind, in the records' order.
pub open spec fn kind_names(tags: Seq<Tag>) -> Seq<String>
    decreases tags.len(),
{
    if tags.len() == 0 {
        seq![]
    } else {
        let rest = kind_names(tags.drop_last());
        if symbol_kinds().contains(tags.last().kind@) {
            rest.push(tags.last().name)
        } else {
            rest
        }
    }
}

/// Puts names in order, longest first; names of equal length keep their
/// order.
pub fn sort_longest_first(names: Vec<String>) -> (r: Vec<String>)
    ensures
        r@.to_multiset() == names@.to_multiset(),
        longest_first(views(r@)),
{
    broadcast use vstd::seq_lib::group_to_multiset_ensures;

    let mut out: Vec<String> = Vec::new();
    let mut i: usize = 0;
    while i < names.len()
        invariant
            i <= names@.len(),
            out@.to_multiset() == names@.subrange(0, i as int).to_multiset(),
            longest_first(views(out@)),
        decreases names.len() - i,
    {
        let len = names[i].as_str().unicode_len();
        let mut pos: usize = 0;
        while pos < out.len() && out[pos].as_str().unicode_len() >= len
            invariant
                pos <= out@.len(),
                i < names@.len(),
                len == names@[i as int]@.len(),
                out@.to_multiset() == names@.subrange(0, i as int).to_multiset(),
                longest_first(views(out@)),
                forall|j: int| 0 <= j < pos ==> (#[trigger] out@[j])@.len() >= len,
            decreases out.len() - pos,
        {
            pos = pos + 1;
        }
        let ghost before = out@;
        let name = names[i].clone();
        out.insert(pos, name);
        proof {
            assert(names@.subrange(0, i as int + 1) =~= names@.subrange(0, i as int).push(
                names@[i as int],
            ));
            vstd::seq_lib::to_multiset_insert(before, pos as int, names@[i as int]);
            vstd::seq_lib::to_multiset_build(names@.subrange(0, i as int), names@[i as int]);
            assert(pos < before.len() ==> before[pos as int]@.len() < len);
            assert forall|k: int| 0 <= k < out@.len() implies #[trigger] views(out@)[k] == (if k
                < pos {
                views(before)[k]
            } else if k == pos {
                names@[i as int]@
            } else {
                views(before)[k - 1]
            }) by {}
            assert forall|a: int, b: int| 0 <= a < b < out@.len() implies views(out@)[a].len()
                >= views(out@)[b].len() by {
                if b < pos {
                } else if b == pos {
                } else if a == pos {
                    assert(views(before)[pos as int].len() < len);
                    assert(views(before)[pos as int].len() >= views(before)[b - 1].len());
                } else if a < pos {
                } else {
                    assert(views(before)[a - 1].len() >= views(before)[b - 1].len());
                }
            }
        }
        i = i + 1;
    }
    assert(names@.subrange(0, names@.len() as int) =~= names@);
    out
}

/// The names of the records of an accepted kind, longest first.
pub fn symbol_names(tags: Vec<Tag>) -> (r: Vec<String>)
    ensures
        r@.to_multiset() == kind_names(tags@).to_multiset(),
        longest_first(views(r@)),
{
    let mut kept: Vec<String> = Vec::new();
    let mut i: usize = 0;
    while i < tags.len()
        invariant
            i <= tags@.len(),
            kept@ == kind_names(tags@.subrange(0, i as int)),
        decreases tags.len() - i,
    {
        let tag = &tags[i];
        proof {
            let pre = tags@.subrange(0, i as int + 1);
            assert(pre.drop_last() =~= tags@.subrange(0, i as int));
            assert(pre.last() == tag);
        }
        if is_symbol_kind(tag.kind.as_str()) {
            kept.push(tag.name.clone());
        }
        i = i + 1;
    }
    assert(tags@.subrange(0, tags@.len() as int) =~= tags@);
    sort_longest_first(kept)
}

/// The parts, one after another, with `sep` between each two of them.
pub open spec fn joined<T>(parts: Seq<Seq<T>>, sep: T) -> Seq<T>
    decreases parts.len(),
{
    if parts.len() == 0 {
        seq![]
    } else if parts.len() == 1 {
        parts[0]
    } else {
        joined(parts.drop_last(), sep).push(sep) + parts.last()
    }
}

/// Joins the parts with `sep` between each two of them.
pub fn join_with<T: Copy>(parts: &Vec<Vec<T>>, sep: T) -> (r: Vec<T>)
    ensures
        r@ == joined(parts@.map_values(|p: Vec<T>| p@), sep),
{
    let mut out: Vec<T> = Vec::new();
    let mut i: usize = 0;
    while i < parts.len()
        invariant
            i <= parts@.len(),
            out@ == joined(parts@.subrange(0, i as int).map_values(|p: Vec<T>| p@), sep),
        decreases parts.len() - i,
    {
        let ghost before = out@;
        let part = &parts[i];
        if i > 0 {
            out.push(sep);
        }
        let ghost mid = out@;
        let mut j: usize = 0;
        while j < part.len()
            invariant
                j <= part@.len(),
                out@ == mid + part@.subrange(0, j as int),
            decreases part.len() - j,
        {
            out.push(part[j]);
            assert(part@.subrange(0, j as int + 1) =~= part@.subrange(0, j as int).push(part@[j as int]));
            j = j + 1;
        }
        proof {
            let pre = parts@.subrange(0, i as int + 1).map_values(|p: Vec<T>| p@);
            assert(pre.drop_last() =~= parts@.subrange(0, i as int).map_values(|p: Vec<T>| p@));
            assert(pre.last() == part@);
            assert(part@.subrange(0, part@.len() as int) =~= part@);
            if i == 0 {
                assert(out@ =~= pre[0]);
            } else {
                assert(out@ =~= joined(pre.drop_last(), sep).push(sep) + pre.last());
            }
        }
        i = i + 1;
    }
    assert(parts@.subrange(0, parts@.len() as int) =~= parts@);
    out
}

/// The list of file paths that the tagger reads: each path's bytes, one
/// path per line.
pub fn join_filepath_list(filepaths: Vec<Vec<u8>>) -> (r: Vec<u8>)
    ensures
        r@ == joined(filepaths@.map_values(|p: Vec<u8>| p@), 10u8),
{
    join_with(&filepaths, 10u8)
}

/// Relies on `byte_slice_cast`'s `as_byte_slice`: the units' bytes in the
/// machine's own byte order, two for each unit.
#[verifier::external_body]
fn wide_bytes(units: &Vec<u16>) -> (r: Vec<u8>)
    ensures
        r@.len() == 2 * units@.len(),
{
    units.as_slice().as_byte_slice().to_vec()
}

/// The list of file paths that the tagger reads, for a system whose paths
/// are UTF-16 units: one path per line, each unit as two bytes in the
/// machine's byte order.
pub fn join_filepath_list_wide(filepaths: Vec<Vec<u16>>) -> (r: Vec<u8>)
    ensures
        r@.len() == 2 * joined(filepaths@.map_values(|p: Vec<u16>| p@), 10u16).len(),
{
    let units = join_with(&filepaths, 10u16);
    wide_bytes(&units)
}

} // verus!
