//! Stripping derives: every `#[derive(...)]` on a top-level struct or enum
//! is replaced by a placeholder marker and an empty slot line, and the item
//! is recorded with its derives.

use core::ops::Range;
use vstd::prelude::*;
use vstd::utf8::{
    decode_utf8, encode_utf8, encode_utf8_valid_utf8, is_char_boundary,
    is_ascii_chars, is_ascii_chars_encode_utf8, is_char_boundary_iff_not_is_continuation_byte,
    is_char_boundary_start_end_of_seq, valid_utf8,
    valid_utf8_concat, valid_utf8_split,
};

use crate::items::{lemma_strs_push, strs, Item, ItemView};
use crate::text::{join_with, push_joined, string_of};
use syn::punctuated::Punctuated;
use syn::{parse_file, Item as SynKind, Path};
use syn::spanned::Spanned;
use syn::token::Comma;

verus! {

broadcast use {vstd::string::group_string_axioms, vstd::slice::group_slice_axioms};

/// A single `#[derive(...)]` attribute in the source.
pub struct DeriveAttr {
    /// The derive paths it lists, each with its segments joined by `::`.
    pub typepaths: Vec<String>,
    /// Byte range of the whole `#[derive(...)]` in the source.
    pub byte_range: Range<usize>,
    /// First and last line of the whole `#[derive(...)]` in the source.
    pub line_range: Range<usize>,
}

/// A struct or enum with its derive attributes, as found in the source.
pub struct Extracted {
    pub name: String,
    /// Line of the item's name.
    pub line: usize,
    pub attrs: Vec<DeriveAttr>,
}

/// The byte ranges of `attrs`, in order.
pub open spec fn ranges_of(attrs: Seq<DeriveAttr>) -> Seq<(int, int)>
    decreases attrs.len(),
{
    if attrs.len() == 0 {
        Seq::empty()
    } else {
        ranges_of(attrs.drop_last()).push(
            (attrs.last().byte_range.start as int, attrs.last().byte_range.end as int),
        )
    }
}

/// The byte ranges of every attribute of `exts`, in order.
pub open spec fn all_ranges(exts: Seq<Extracted>) -> Seq<(int, int)>
    decreases exts.len(),
{
    if exts.len() == 0 {
        Seq::empty()
    } else {
        all_ranges(exts.drop_last()) + ranges_of(exts.last().attrs@)
    }
}

/// The ranges lie in `b` in increasing order without overlap, each from
/// one character boundary to another.
pub open spec fn ranges_ok(b: Seq<u8>, rs: Seq<(int, int)>) -> bool {
    &&& forall|i: int|
        0 <= i < rs.len() ==> 0 <= (#[trigger] rs[i]).0 <= rs[i].1 <= b.len() && is_char_boundary(
            b,
            rs[i].0,
        ) && is_char_boundary(b, rs[i].1)
    &&& forall|i: int, j: int| 0 <= i < j < rs.len() ==> (#[trigger] rs[i]).1 <= (#[trigger] rs[j]).0
}

/// Where the last of `rs` ends, 0 when there is none.
pub open spec fn end_of(rs: Seq<(int, int)>) -> int {
    if rs.len() == 0 {
        0
    } else {
        rs.last().1
    }
}

/// The text of `b` up to the end of the last range of `rs`, with every
/// range replaced by `rep`.
pub open spec fn replaced_prefix(b: Seq<u8>, rs: Seq<(int, int)>, rep: Seq<u8>) -> Seq<u8>
    decreases rs.len(),
{
    if rs.len() == 0 {
        Seq::empty()
    } else {
        replaced_prefix(b, rs.drop_last(), rep) + b.subrange(end_of(rs.drop_last()), rs.last().0)
            + rep
    }
}

/// `b` with every range of `rs` replaced by `rep`.
pub open spec fn replaced(b: Seq<u8>, rs: Seq<(int, int)>, rep: Seq<u8>) -> Seq<u8> {
    replaced_prefix(b, rs, rep) + b.subrange(end_of(rs), b.len() as int)
}

/// What stands in place of a stripped attribute: the marker line and an
/// empty slot line (the attribute's own line ending stays after it).
pub open spec fn substitution() -> Seq<char> {
    "// __DERIVE_PLACEHOLDER__\n"@
}

/// How many lines a stripped attribute adds: two for the marker block,
/// less the lines the attribute spanned.
pub open spec fn line_delta(a: DeriveAttr) -> int {
    2 - ((a.line_range.end - a.line_range.start) + 1)
}

pub open spec fn attrs_shift(attrs: Seq<DeriveAttr>) -> int
    decreases attrs.len(),
{
    if attrs.len() == 0 {
        0
    } else {
        attrs_shift(attrs.drop_last()) + line_delta(attrs.last())
    }
}

/// How many lines the sandbox gains up to and including the attributes of
/// the last of `exts`.
pub open spec fn line_shift(exts: Seq<Extracted>) -> int
    decreases exts.len(),
{
    if exts.len() == 0 {
        0
    } else {
        line_shift(exts.drop_last()) + attrs_shift(exts.last().attrs@)
    }
}

/// The derives of `attrs`, in source order.
pub open spec fn derives_of(attrs: Seq<DeriveAttr>) -> Seq<Seq<char>>
    decreases attrs.len(),
{
    if attrs.len() == 0 {
        Seq::empty()
    } else {
        derives_of(attrs.drop_last()) + strs(attrs.last().typepaths@)
    }
}

/// The item recorded for the `k`-th of `exts`: its derives all pending,
/// its sandbox line shifted by the lines that the edits up to its own
/// attributes add.
pub open spec fn recorded_item(exts: Seq<Extracted>, k: int) -> ItemView {
    ItemView {
        name: exts[k].name@,
        lineno_source: exts[k].line,
        lineno_sandbox: (exts[k].line + line_shift(exts.take(k + 1))) as usize,
        original: derives_of(exts[k].attrs@),
        unused: derives_of(exts[k].attrs@),
    }
}

/// The running line shift stays within `isize`, and every sandbox line is
/// a line number.
pub open spec fn shifts_ok(exts: Seq<Extracted>) -> bool {
    &&& forall|k: int, j: int|
        0 <= k < exts.len() && 0 <= j <= exts[k].attrs@.len() ==> isize::MIN <= line_shift(
            #[trigger] exts.take(k),
        ) + attrs_shift(#[trigger] exts[k].attrs@.take(j)) <= isize::MAX
    &&& forall|k: int, j: int|
        0 <= k < exts.len() && 0 <= j < exts[k].attrs@.len() ==> (#[trigger] exts[k].attrs@[j]).line_range.start
            <= exts[k].attrs@[j].line_range.end < isize::MAX
    &&& forall|k: int|
        0 <= k < exts.len() ==> (#[trigger] exts[k]).line <= isize::MAX && 0 <= exts[k].line
            + line_shift(exts.take(k + 1)) <= isize::MAX
}

pub proof fn lemma_chunk_valid(b: Seq<u8>, x: int, y: int)
    requires
        valid_utf8(b),
        0 <= x <= y <= b.len(),
        is_char_boundary(b, x),
        is_char_boundary(b, y),
    ensures
        valid_utf8(b.subrange(x, y)),
{
    valid_utf8_split(b, x);
    let t = b.subrange(x, b.len() as int);
    if y < b.len() {
        is_char_boundary_iff_not_is_continuation_byte(b, y);
        is_char_boundary_iff_not_is_continuation_byte(t, y - x);
        assert(t[y - x] == b[y]);
    } else {
        is_char_boundary_start_end_of_seq(t);
    }
    valid_utf8_split(t, y - x);
    assert(t.subrange(0, y - x) =~= b.subrange(x, y));
}

/// The [`String`] whose UTF-8 encoding is `bytes`; calls `String::from_utf8`,
/// which accepts exactly the valid UTF-8 byte sequences and keeps the bytes.
#[verifier::external_body]
fn string_from_utf8(bytes: Vec<u8>) -> (r: Option<String>)
    ensures
        valid_utf8(bytes@) ==> r is Some,
        r matches Some(s) ==> encode_utf8(s@) == bytes@,
{
    String::from_utf8(bytes).ok()
}

/// Appends `b[from..to]` to `out`.
fn push_bytes(out: &mut Vec<u8>, b: &[u8], from: usize, to: usize)
    requires
        from <= to <= b@.len(),
    ensures
        final(out)@ == old(out)@ + b@.subrange(from as int, to as int),
{
    let mut i = from;
    while i < to
        invariant
            from <= i <= to <= b@.len(),
            out@ == old(out)@ + b@.subrange(from as int, i as int),
        decreases to - i,
    {
        out.push(b[i]);
        i = i + 1;
        proof {
            assert(b@.subrange(from as int, i as int) =~= b@.subrange(from as int, i - 1).push(
                b@[i - 1],
            ));
        }
    }
}

/// Replaces every derive attribute of `extracted` in `source` by the
/// placeholder block and records each item with its derives and its line in
/// the edited source.
pub fn edit_source(source: &mut String, extracted: Vec<Extracted>) -> (r: Vec<Item>)
    requires
        ranges_ok(encode_utf8(old(source)@), all_ranges(extracted@)),
        shifts_ok(extracted@),
    ensures
        encode_utf8(final(source)@) == replaced(
            encode_utf8(old(source)@),
            all_ranges(extracted@),
            encode_utf8(substitution()),
        ),
        r@.len() == extracted@.len(),
        forall|k: int| 0 <= k < r@.len() ==> (#[trigger] r@[k])@ == recorded_item(extracted@, k),
{
    let ghost exts = extracted@;
    let ghost flat = all_ranges(exts);
    let ghost b0 = encode_utf8(source@);
    let b: &[u8] = source.as_str().as_bytes();
    let rep: &[u8] = "// __DERIVE_PLACEHOLDER__\n".as_bytes();
    let ghost repv = rep@;
    proof {
        encode_utf8_valid_utf8(source@);
        encode_utf8_valid_utf8(substitution());
    }
    let mut out: Vec<u8> = Vec::new();
    let mut prev: usize = 0;
    let mut shift: isize = 0;
    let mut items: Vec<Item> = Vec::new();
    let ghost mut done: Seq<(int, int)> = Seq::empty();
    let n = extracted.len();
    let mut k: usize = 0;
    while k < n
        invariant
            n == exts.len(),
            exts == extracted@,
            b@ == b0,
            b0 == encode_utf8(source@),
            repv == rep@,
            repv == encode_utf8(substitution()),
            valid_utf8(b0),
            valid_utf8(repv),
            flat == all_ranges(exts),
            ranges_ok(b0, flat),
            shifts_ok(exts),
            k <= n,
            done == all_ranges(exts.take(k as int)),
            flat.take(done.len() as int) == done,
            prev == end_of(done),
            0 <= prev <= b0.len(),
            is_char_boundary(b0, prev as int),
            out@ == replaced_prefix(b0, done, repv),
            valid_utf8(out@),
            shift == line_shift(exts.take(k as int)),
            items@.len() == k,
            forall|q: int| 0 <= q < k ==> (#[trigger] items@[q])@ == recorded_item(exts, q),
        decreases n - k,
    {
        let ext = &extracted[k];
        let na = ext.attrs.len();
        let ghost base = done;
        let ghost attrs = ext.attrs@;
        let mut derives: Vec<String> = Vec::new();
        let mut j: usize = 0;
        proof {
            lemma_all_ranges_take(exts, k as int);
            assert(attrs.take(0) =~= Seq::<DeriveAttr>::empty());
        }
        while j < na
            invariant
                n == exts.len(),
                exts == extracted@,
                k < n,
                attrs == exts[k as int].attrs@,
                ext.attrs@ == attrs,
                *ext == exts[k as int],
                na == attrs.len(),
                b@ == b0,
                repv == rep@,
                valid_utf8(b0),
                valid_utf8(repv),
                flat == all_ranges(exts),
                ranges_ok(b0, flat),
                shifts_ok(exts),
                base == all_ranges(exts.take(k as int)),
                all_ranges(exts.take(k as int + 1)) == base + ranges_of(attrs),
                flat.take(all_ranges(exts.take(k as int + 1)).len() as int) == all_ranges(exts.take(k as int + 1)),
                all_ranges(exts.take(k as int + 1)).len() <= flat.len(),
                j <= na,
                done == base + ranges_of(attrs.take(j as int)),
                flat.take(done.len() as int) == done,
                prev == end_of(done),
                0 <= prev <= b0.len(),
                is_char_boundary(b0, prev as int),
                out@ == replaced_prefix(b0, done, repv),
                valid_utf8(out@),
                shift == line_shift(exts.take(k as int)) + attrs_shift(attrs.take(j as int)),
                strs(derives@) == derives_of(attrs.take(j as int)),
            decreases na - j,
        {
            let a = &ext.attrs[j];
            let ghost idx = done.len() as int;
            proof {
                assert(attrs.take(j as int + 1).drop_last() =~= attrs.take(j as int));
                assert(attrs.take(j as int + 1).last() == *a);
                assert(ranges_of(attrs.take(j as int + 1)) == ranges_of(attrs.take(j as int)).push(
                    (a.byte_range.start as int, a.byte_range.end as int),
                ));
                assert(ranges_of(attrs.take(j as int + 1)).len() <= ranges_of(attrs).len()) by {
                    lemma_ranges_of_take(attrs, j as int + 1);
                }
                let whole = all_ranges(exts.take(k as int + 1));
                lemma_ranges_of_take(attrs, j as int + 1);
                assert(whole.take(idx + 1) =~= base + ranges_of(attrs.take(j as int + 1)));
                lemma_ranges_of_take(attrs.take(j as int), j as int);
                assert(idx == base.len() + j);
                assert(flat.take(whole.len() as int)[idx] == flat[idx]);
                assert(flat[idx] == whole[idx]);
                assert(whole[idx] == ranges_of(attrs)[j as int]);
                assert(ranges_of(attrs)[j as int] == ranges_of(attrs).take(j as int + 1)[j as int]);
                assert(flat[idx] == (a.byte_range.start as int, a.byte_range.end as int));
                if idx > 0 {
                    assert(flat[idx - 1] == done.last());
                    assert(flat[idx - 1].1 <= flat[idx].0);
                }
                lemma_chunk_valid(b0, prev as int, a.byte_range.start as int);
                valid_utf8_concat(out@, b0.subrange(prev as int, a.byte_range.start as int));
                valid_utf8_concat(
                    out@ + b0.subrange(prev as int, a.byte_range.start as int),
                    repv,
                );
            }
            let start = a.byte_range.start;
            push_bytes(&mut out, b, prev, start);
            let mut q: usize = 0;
            while q < rep.len()
                invariant
                    q <= rep@.len(),
                    out@ == replaced_prefix(b0, done, repv) + b0.subrange(prev as int, start as int)
                        + rep@.take(q as int),
                decreases rep@.len() - q,
            {
                out.push(rep[q]);
                q = q + 1;
                proof {
                    assert(rep@.take(q as int) =~= rep@.take(q - 1).push(rep@[q - 1]));
                }
            }
            proof {
                assert(rep@.take(rep@.len() as int) == rep@);
                let nd = done.push((a.byte_range.start as int, a.byte_range.end as int));
                assert(nd.drop_last() == done);
                assert(out@ == replaced_prefix(b0, nd, repv));
                done = nd;
                assert(done =~= base + ranges_of(attrs.take(j as int + 1)));
                assert(flat.take(done.len() as int) =~= done);
                assert(exts[k as int].attrs@[j as int] == *a);
                assert(isize::MIN <= line_shift(exts.take(k as int)) + attrs_shift(
                    exts[k as int].attrs@.take(j as int + 1),
                ) <= isize::MAX);
            }
            prev = a.byte_range.end;
            let attr_lines: isize = (a.line_range.end - a.line_range.start) as isize + 1;
            shift = shift + (2 - attr_lines);
            let mut t: usize = 0;
            let ghost dv = strs(derives@);
            while t < a.typepaths.len()
                invariant
                    t <= a.typepaths@.len(),
                    strs(derives@) == dv + strs(a.typepaths@).take(t as int),
                decreases a.typepaths@.len() - t,
            {
                let p = a.typepaths[t].clone();
                proof {
                    lemma_strs_push(derives@, p);
                    assert(strs(a.typepaths@).take(t as int + 1) =~= strs(a.typepaths@).take(
                        t as int,
                    ).push(p@));
                }
                derives.push(p);
                t = t + 1;
            }
            proof {
                assert(strs(a.typepaths@).take(a.typepaths@.len() as int) == strs(a.typepaths@));
            }
            j = j + 1;
        }
        proof {
            assert(attrs.take(na as int) == attrs);
            assert(exts.take(k as int + 1).drop_last() =~= exts.take(k as int));
            assert(exts.take(k as int + 1).last() == exts[k as int]);
            assert(exts[k as int] == *ext);
            assert(line_shift(exts.take(k as int + 1)) == line_shift(exts.take(k as int)) + attrs_shift(exts[k as int].attrs@));
        }
        let lineno_sandbox = (ext.line as isize + shift) as usize;
        let item = Item::new(ext.name.clone(), ext.line, lineno_sandbox, derives);
        items.push(item);
        proof {
            assert(items@[k as int]@ == recorded_item(exts, k as int));
        }
        k = k + 1;
    }
    proof {
        assert(exts.take(n as int) == exts);
        is_char_boundary_start_end_of_seq(b0);
        lemma_chunk_valid(b0, prev as int, b0.len() as int);
        valid_utf8_concat(out@, b0.subrange(prev as int, b0.len() as int));
    }
    push_bytes(&mut out, b, prev, b.len());
    let ghost expected = out@;
    match string_from_utf8(out) {
        Some(s) => {
            *source = s;
        },
        None => {},
    }
    items
}

pub proof fn lemma_ranges_of_take(attrs: Seq<DeriveAttr>, j: int)
    requires
        0 <= j <= attrs.len(),
    ensures
        ranges_of(attrs).take(j) == ranges_of(attrs.take(j)),
        ranges_of(attrs).len() == attrs.len(),
    decreases attrs.len(),
{
    if attrs.len() > 0 {
        lemma_ranges_of_take(attrs.drop_last(), if j == attrs.len() { j - 1 } else { j });
        if j < attrs.len() {
            assert(attrs.drop_last().take(j) =~= attrs.take(j));
            assert(ranges_of(attrs).take(j) =~= ranges_of(attrs.drop_last()).take(j));
        } else {
            assert(attrs.take(j) =~= attrs);
            assert(ranges_of(attrs).take(j) =~= ranges_of(attrs));
        }
    } else {
        assert(attrs.take(j) =~= attrs);
    }
}

pub proof fn lemma_all_ranges_take(exts: Seq<Extracted>, k: int)
    requires
        0 <= k < exts.len(),
    ensures
        all_ranges(exts.take(k + 1)) == all_ranges(exts.take(k)) + ranges_of(exts[k].attrs@),
        all_ranges(exts).take(all_ranges(exts.take(k + 1)).len() as int) == all_ranges(exts.take(k + 1)),
        all_ranges(exts).take(all_ranges(exts.take(k)).len() as int) == all_ranges(exts.take(k)),
        all_ranges(exts.take(k + 1)).len() <= all_ranges(exts).len(),
    decreases exts.len(),
{
    assert(exts.take(k + 1).drop_last() =~= exts.take(k));
    lemma_all_ranges_prefix(exts, k + 1);
    lemma_all_ranges_prefix(exts, k);
}

pub proof fn lemma_all_ranges_prefix(exts: Seq<Extracted>, k: int)
    requires
        0 <= k <= exts.len(),
    ensures
        all_ranges(exts).take(all_ranges(exts.take(k)).len() as int) == all_ranges(exts.take(k)),
        all_ranges(exts.take(k)).len() <= all_ranges(exts).len(),
    decreases exts.len(),
{
    if k == exts.len() {
        assert(exts.take(k) =~= exts);
        assert(all_ranges(exts).take(all_ranges(exts).len() as int) =~= all_ranges(exts));
    } else {
        lemma_all_ranges_prefix(exts.drop_last(), k);
        assert(exts.drop_last().take(k) =~= exts.take(k));
        let p = all_ranges(exts.take(k));
        let d = all_ranges(exts.drop_last());
        assert(d.take(p.len() as int) == p);
        assert((d + ranges_of(exts.last().attrs@)).take(p.len() as int) =~= d.take(p.len() as int));
    }
}

// ---------------------------------------------------------------------------
// Reading the source with `syn`
// ---------------------------------------------------------------------------

#[verifier::external_type_specification]
#[verifier::external_body]
pub struct ExSynError(syn::Error);

/// An attribute as syn reads it: whether its path is `derive`, its byte
/// range and line range, and its arguments read as comma-separated paths
/// (each as its segments' identifiers) or syn's error.
pub type SynAttr = (bool, Range<usize>, Range<usize>, Result<Vec<Vec<String>>, syn::Error>);

/// A struct or enum as syn reads it: its name, the line of its name, and
/// its attributes in order.
pub type SynItem = (String, usize, Vec<SynAttr>);

/// What a [`SynAttr`] holds; `None` for arguments that are not a list of
/// paths.
pub type RawAttr = (bool, Range<usize>, Range<usize>, Option<Seq<Seq<Seq<char>>>>);

/// What a [`SynItem`] holds.
pub type RawItem = (Seq<char>, usize, Seq<RawAttr>);

/// The `::`-separated segments of each path, as characters.
pub open spec fn path_strs(paths: Seq<Vec<String>>) -> Seq<Seq<Seq<char>>> {
    paths.map_values(|p: Vec<String>| strs(p@))
}

pub open spec fn raw_attr_view(a: SynAttr) -> RawAttr {
    (
        a.0,
        a.1,
        a.2,
        match a.3 {
            Ok(p) => Some(path_strs(p@)),
            Err(_) => None,
        },
    )
}

pub open spec fn raw_attr_views(attrs: Seq<SynAttr>) -> Seq<RawAttr> {
    attrs.map_values(|a: SynAttr| raw_attr_view(a))
}

pub open spec fn raw_item_view(it: SynItem) -> RawItem {
    (it.0@, it.1, raw_attr_views(it.2@))
}

pub open spec fn raw_views(v: Seq<Option<SynItem>>) -> Seq<Option<RawItem>> {
    v.map_values(
        |o: Option<SynItem>|
            match o {
                Some(it) => Some(raw_item_view(it)),
                None => None,
            },
    )
}

/// Where an attribute stands: its byte range and its first and last line.
pub type SynPlace = (Range<usize>, Range<usize>);

/// A struct or enum as syn reads it, without attribute arguments: its
/// name, the line of its name, and where each of its attributes stands.
pub type SynShape = (String, usize, Vec<SynPlace>);

/// The attributes of a struct or enum as syn reads their arguments: per
/// attribute, whether its path is `derive`, and its arguments read as
/// comma-separated paths or syn's error.
pub type SynArgs = Vec<(bool, Result<Vec<Vec<String>>, syn::Error>)>;

/// What a [`SynShape`] holds.
pub type ShapeView = (Seq<char>, usize, Seq<SynPlace>);

/// What a [`SynArgs`] holds.
pub type ArgsView = Seq<(bool, Option<Seq<Seq<Seq<char>>>>)>;

pub open spec fn shape_views(v: Seq<Option<SynShape>>) -> Seq<Option<ShapeView>> {
    v.map_values(
        |o: Option<SynShape>|
            match o {
                Some(sh) => Some((sh.0@, sh.1, sh.2@)),
                None => None,
            },
    )
}

pub open spec fn args_view(a: SynArgs) -> ArgsView {
    a@.map_values(
        |x: (bool, Result<Vec<Vec<String>>, syn::Error>)|
            (
                x.0,
                match x.1 {
                    Ok(p) => Some(path_strs(p@)),
                    Err(_) => None,
                },
            ),
    )
}

pub open spec fn args_views(v: Seq<Option<SynArgs>>) -> Seq<Option<ArgsView>> {
    v.map_values(
        |o: Option<SynArgs>|
            match o {
                Some(a) => Some(args_view(a)),
                None => None,
            },
    )
}

/// What syn reads from `source` as a Rust file (`syn::parse_file`), per
/// top-level item in order: a struct or enum as a [`ShapeView`], `None`
/// for any other kind of item; `None` as a whole when the source does not
/// parse.
pub uninterp spec fn syn_items(source: Seq<char>) -> Option<Seq<Option<ShapeView>>>;

/// What syn reads of the attribute arguments of the same items: per
/// top-level item in order, for a struct or enum its attributes' arguments
/// ([`ArgsView`]), `None` for any other kind of item; `None` as a whole
/// when the source does not parse.
pub uninterp spec fn syn_args(source: Seq<char>) -> Option<Seq<Option<ArgsView>>>;

/// The two readings list the same items, and the same attributes per item.
pub open spec fn shapes_match(shapes: Seq<Option<ShapeView>>, args: Seq<Option<ArgsView>>) -> bool {
    &&& shapes.len() == args.len()
    &&& forall|i: int|
        0 <= i < shapes.len() ==> match (#[trigger] shapes[i], args[i]) {
            (Some(sh), Some(a)) => sh.2.len() == a.len(),
            (None, None) => true,
            _ => false,
        }
}

/// `syn::parse_file` on the source, its top-level structs and enums read
/// into plain values: the identifier's text (`Display`) and start line
/// (`Span::start`), and per attribute its span's byte range and start and
/// end lines; syn's error when the file does not parse.
#[verifier::external_body]
fn syn_item_shapes(source: &str) -> (r: Result<Vec<Option<SynShape>>, syn::Error>)
    ensures
        match r {
            Ok(v) => syn_items(source@) == Some(shape_views(v@)),
            Err(_) => syn_items(source@) is None,
        },
{
    Ok(parse_file(source)?.items.into_iter().map(|item| (match item {
        SynKind::Struct(s) => Some((s.ident, s.attrs)),
        SynKind::Enum(e) => Some((e.ident, e.attrs)),
        _ => None,
    }).map(|(id, attrs)| (id.to_string(), id.span().start().line, attrs.iter().map(|a| (
        a.span().byte_range(),
        a.span().start().line..a.span().end().line,
    )).collect()))).collect())
}

/// `syn::parse_file` on the source, per attribute of its top-level structs
/// and enums `Path::is_ident("derive")` and `Attribute::parse_args_with`
/// over comma-separated `syn::Path`s (each as its segments' identifiers);
/// syn's error when the file does not parse. Parsing the same source, it
/// succeeds exactly when [`syn_item_shapes`] does and lists the same items
/// and attributes.
#[verifier::external_body]
fn syn_derive_args(source: &str) -> (r: Result<Vec<Option<SynArgs>>, syn::Error>)
    ensures
        r is Ok <==> syn_items(source@) is Some,
        match r {
            Ok(v) => syn_args(source@) == Some(args_views(v@)) && (syn_items(source@) matches Some(
                sh,
            ) && shapes_match(sh, args_views(v@))),
            Err(_) => syn_args(source@) is None,
        },
{
    Ok(parse_file(source)?.items.into_iter().map(|item| (match item {
        SynKind::Struct(s) => Some(s.attrs),
        SynKind::Enum(e) => Some(e.attrs),
        _ => None,
    }).map(|attrs| attrs.iter().map(|a| (
        a.path().is_ident("derive"),
        a.parse_args_with(Punctuated::<Path, Comma>::parse_terminated).map(|ps| ps.iter().map(|p| p.segments.iter().map(|s| s.ident.to_string()).collect()).collect()),
    )).collect())).collect())
}

/// An attribute read from both readings.
pub open spec fn raw_attr_of(place: SynPlace, arg: (bool, Option<Seq<Seq<Seq<char>>>>)) -> RawAttr {
    (arg.0, place.0, place.1, arg.1)
}

/// The two readings put together, item by item and attribute by attribute.
pub open spec fn zip_reading(shapes: Seq<Option<ShapeView>>, args: Seq<Option<ArgsView>>) -> Seq<Option<RawItem>> {
    Seq::new(
        shapes.len(),
        |i: int|
            match (shapes[i], args[i]) {
                (Some(sh), Some(a)) => Some(
                    (sh.0, sh.1, Seq::new(sh.2.len(), |j: int| raw_attr_of(sh.2[j], a[j]))),
                ),
                _ => None,
            },
    )
}

/// What syn reads from `source`: its top-level items, each struct and
/// enum with its name, line and attributes (place, whether a derive, and
/// arguments); `None` when the source does not parse.
pub open spec fn syn_reading(source: Seq<char>) -> Option<Seq<Option<RawItem>>> {
    match (syn_items(source), syn_args(source)) {
        (Some(sh), Some(a)) => Some(zip_reading(sh, a)),
        _ => None,
    }
}

/// Puts the attributes of one item from both readings together.
fn zip_attrs(places: Vec<SynPlace>, args: SynArgs) -> (r: Vec<SynAttr>)
    requires
        places@.len() == args@.len(),
    ensures
        raw_attr_views(r@) == Seq::new(places@.len(), |j: int| raw_attr_of(places@[j], args_view(args)[j])),
{
    let ghost pv = places@;
    let ghost av = args_view(args);
    let ghost target = Seq::new(pv.len(), |j: int| raw_attr_of(pv[j], av[j]));
    let mut ps = places;
    let mut rest = args;
    let mut out: Vec<SynAttr> = Vec::new();
    let ghost mut taken: int = 0;
    assert(raw_attr_views(out@) =~= target.take(0));
    assert(ps@ =~= pv.skip(0));
    assert(args_view(rest) =~= av.skip(0));
    while rest.len() > 0
        invariant
            pv.len() == av.len(),
            target == Seq::new(pv.len(), |j: int| raw_attr_of(pv[j], av[j])),
            0 <= taken <= pv.len(),
            ps@ == pv.skip(taken),
            rest@.len() == ps@.len(),
            args_view(rest) == av.skip(taken),
            raw_attr_views(out@) == target.take(taken),
        decreases rest@.len(),
    {
        let ghost rv = rest;
        let ghost pv0 = ps@;
        let (byte_range, line_range) = ps.remove(0);
        let (is_derive, read) = rest.remove(0);
        proof {
            assert(args_view(rest) =~= av.skip(taken + 1)) by {
                assert forall|q: int| 0 <= q < rest@.len() implies #[trigger] args_view(rest)[q]
                    == av.skip(taken + 1)[q] by {
                    assert(rest@[q] == rv@[q + 1]);
                    assert(args_view(rv)[q + 1] == av.skip(taken)[q + 1]);
                }
            }
            assert(ps@ =~= pv.skip(taken + 1));
            assert(args_view(rv)[0] == av[taken]);
            assert(pv0[0] == pv[taken]);
        }
        let ghost prev = out@;
        let a: SynAttr = (is_derive, byte_range, line_range, read);
        out.push(a);
        proof {
            assert(raw_attr_view(a) == target[taken]);
            assert(raw_attr_views(out@) =~= raw_attr_views(prev).push(raw_attr_view(a)));
            assert(target.take(taken + 1) =~= target.take(taken).push(target[taken]));
            taken = taken + 1;
        }
    }
    proof {
        assert(target.take(taken) =~= target);
    }
    out
}

/// Puts the two readings together ([`zip_reading`]).
fn zip_items(shapes: Vec<Option<SynShape>>, args: Vec<Option<SynArgs>>) -> (r: Vec<Option<SynItem>>)
    requires
        shapes_match(shape_views(shapes@), args_views(args@)),
    ensures
        raw_views(r@) == zip_reading(shape_views(shapes@), args_views(args@)),
{
    let ghost sv = shape_views(shapes@);
    let ghost av = args_views(args@);
    let ghost target = zip_reading(sv, av);
    let mut srest = shapes;
    let mut arest = args;
    let mut out: Vec<Option<SynItem>> = Vec::new();
    let ghost mut taken: int = 0;
    assert(raw_views(out@) =~= target.take(0));
    assert(shape_views(srest@) =~= sv.skip(0));
    assert(args_views(arest@) =~= av.skip(0));
    while srest.len() > 0
        invariant
            shapes_match(sv, av),
            target == zip_reading(sv, av),
            0 <= taken <= sv.len(),
            shape_views(srest@) == sv.skip(taken),
            args_views(arest@) == av.skip(taken),
            srest@.len() == arest@.len(),
            raw_views(out@) == target.take(taken),
        decreases srest@.len(),
    {
        let ghost s0 = srest@;
        let ghost a0 = arest@;
        let sh = srest.remove(0);
        let ar = arest.remove(0);
        proof {
            assert(shape_views(srest@) =~= sv.skip(taken + 1)) by {
                assert(shape_views(s0).len() == s0.len());
                assert(shape_views(srest@).len() == sv.skip(taken + 1).len());
                assert forall|q: int| 0 <= q < srest@.len() implies #[trigger] shape_views(srest@)[q]
                    == sv.skip(taken + 1)[q] by {
                    assert(srest@[q] == s0[q + 1]);
                    assert(shape_views(srest@)[q] == shape_views(s0)[q + 1]);
                    assert(shape_views(s0)[q + 1] == sv.skip(taken)[q + 1]);
                    assert(shape_views(s0).len() == s0.len());
                    assert(q + 1 < sv.len() - taken);
                    assert(sv.skip(taken)[q + 1] == sv[taken + q + 1]);
                    assert(sv.skip(taken + 1)[q] == sv[taken + q + 1]);
                }
            }
            assert(args_views(arest@) =~= av.skip(taken + 1)) by {
                assert(args_views(a0).len() == a0.len());
                assert(args_views(arest@).len() == av.skip(taken + 1).len());
                assert forall|q: int| 0 <= q < arest@.len() implies #[trigger] args_views(arest@)[q]
                    == av.skip(taken + 1)[q] by {
                    assert(arest@[q] == a0[q + 1]);
                    assert(args_views(arest@)[q] == args_views(a0)[q + 1]);
                    assert(args_views(a0)[q + 1] == av.skip(taken)[q + 1]);
                    assert(q + 1 < av.len() - taken);
                    assert(av.skip(taken)[q + 1] == av[taken + q + 1]);
                    assert(av.skip(taken + 1)[q] == av[taken + q + 1]);
                }
            }
            assert(s0.len() > 0 && a0.len() > 0);
            assert(shape_views(s0).len() == s0.len());
            assert(taken < sv.len());
            assert(shape_views(s0)[0] == sv.skip(taken)[0]);
            assert(args_views(a0)[0] == av.skip(taken)[0]);
            assert(shape_views(s0)[0] == sv[taken]);
            assert(args_views(a0)[0] == av[taken]);
            assert(target.take(taken + 1) =~= target.take(taken).push(target[taken]));
            assert(match (sv[taken], av[taken]) {
                (Some(x), Some(y)) => x.2.len() == y.len(),
                (None, None) => true,
                _ => false,
            });
        }
        let ghost prev = out@;
        match sh {
            Some((name, line, places)) => {
                match ar {
                    Some(attr_args) => {
                        let attrs = zip_attrs(places, attr_args);
                        let it: SynItem = (name, line, attrs);
                        out.push(Some(it));
                        proof {
                            assert(raw_views(out@) =~= raw_views(prev).push(Some(raw_item_view(it))));
                        }
                    },
                    None => {
                        out.push(None);
                        proof {
                            assert(raw_views(out@) =~= raw_views(prev).push(None));
                        }
                    },
                }
            },
            None => {
                out.push(None);
                proof {
                    assert(raw_views(out@) =~= raw_views(prev).push(None));
                }
            },
        }
        proof {
            taken = taken + 1;
        }
    }
    proof {
        assert(target.take(taken) =~= target);
    }
    out
}

/// A derive attribute whose arguments are not a list of paths.
pub open spec fn unreadable_derive(a: RawAttr) -> bool {
    a.0 && a.3 is None
}

/// No derive attribute of `attrs` is unreadable.
pub open spec fn attrs_readable(attrs: Seq<RawAttr>) -> bool {
    forall|j: int| 0 <= j < attrs.len() ==> !unreadable_derive(#[trigger] attrs[j])
}

/// Every derive attribute of every struct and enum read is readable.
pub open spec fn reading_ok(rd: Seq<Option<RawItem>>) -> bool {
    forall|i: int|
        0 <= i < rd.len() ==> match #[trigger] rd[i] {
            Some(it) => attrs_readable(it.2),
            None => true,
        }
}

/// An attribute of a struct or enum: whether it is a derive, the paths it
/// lists (none for other attributes), its byte range and its line range.
pub type AttrView = (bool, Seq<Seq<Seq<char>>>, Range<usize>, Range<usize>);

/// A struct or enum: its name, the line of its name, and its attributes.
pub type ItemSyntaxView = (Seq<char>, usize, Seq<AttrView>);

/// The attribute read as `a`: a derive keeps the paths it lists, another
/// attribute keeps none.
pub open spec fn attr_syntax_of(a: RawAttr) -> AttrView {
    (
        a.0,
        if a.0 {
            match a.3 {
                Some(p) => p,
                None => Seq::empty(),
            }
        } else {
            Seq::empty()
        },
        a.1,
        a.2,
    )
}

pub open spec fn attrs_syntax_of(attrs: Seq<RawAttr>) -> Seq<AttrView> {
    attrs.map_values(|a: RawAttr| attr_syntax_of(a))
}

/// The structs and enums of a reading, in order.
pub open spec fn syntax_of(rd: Seq<Option<RawItem>>) -> Seq<ItemSyntaxView>
    decreases rd.len(),
{
    if rd.len() == 0 {
        Seq::empty()
    } else {
        match rd.last() {
            Some(it) => syntax_of(rd.drop_last()).push((it.0, it.1, attrs_syntax_of(it.2))),
            None => syntax_of(rd.drop_last()),
        }
    }
}

/// An attribute of a struct or enum, as the source has it.
pub struct AttrSyntax {
    /// The attribute is `#[derive(...)]`.
    pub is_derive: bool,
    /// For a derive attribute, the paths it lists, as segment identifiers.
    pub paths: Vec<Vec<String>>,
    pub byte_range: Range<usize>,
    pub line_range: Range<usize>,
}

/// A struct or enum of the source: its name, the line of its name, and its
/// attributes in order.
pub struct ItemSyntax {
    pub name: String,
    pub line: usize,
    pub attrs: Vec<AttrSyntax>,
}

pub open spec fn attr_view(a: AttrSyntax) -> AttrView {
    (a.is_derive, path_strs(a.paths@), a.byte_range, a.line_range)
}

pub open spec fn attr_views(attrs: Seq<AttrSyntax>) -> Seq<AttrView> {
    attrs.map_values(|a: AttrSyntax| attr_view(a))
}

pub open spec fn syntax_views(items: Seq<ItemSyntax>) -> Seq<ItemSyntaxView> {
    items.map_values(|i: ItemSyntax| (i.name@, i.line, attr_views(i.attrs@)))
}

/// The attributes of one struct or enum as syn read them, the paths of its
/// derive attributes taken out; the first unreadable derive's error.
fn attrs_from_reading(attrs: Vec<SynAttr>) -> (r: Result<Vec<AttrSyntax>, syn::Error>)
    ensures
        match r {
            Ok(v) => attrs_readable(raw_attr_views(attrs@)) && attr_views(v@) == attrs_syntax_of(
                raw_attr_views(attrs@),
            ),
            Err(_) => !attrs_readable(raw_attr_views(attrs@)),
        },
{
    let ghost av = raw_attr_views(attrs@);
    let mut rest = attrs;
    let mut out: Vec<AttrSyntax> = Vec::new();
    let ghost mut taken: int = 0;
    assert(av.take(0) =~= Seq::<RawAttr>::empty());
    assert(attr_views(out@) =~= attrs_syntax_of(av.take(0)));
    while rest.len() > 0
        invariant
            av == raw_attr_views(attrs@),
            0 <= taken <= av.len(),
            av.len() == taken + rest@.len(),
            raw_attr_views(rest@) == av.skip(taken),
            attrs_readable(av.take(taken)),
            attr_views(out@) == attrs_syntax_of(av.take(taken)),
        decreases rest@.len(),
    {
        let ghost rv = rest@;
        let a = rest.remove(0);
        proof {
            assert(raw_attr_view(a) == av[taken]) by {
                assert(raw_attr_views(rv)[0] == av.skip(taken)[0]);
            }
            assert(rest@ =~= rv.skip(1));
            assert(raw_attr_views(rest@) =~= av.skip(taken + 1)) by {
                assert forall|q: int| 0 <= q < rest@.len() implies #[trigger] raw_attr_views(rest@)[q]
                    == av.skip(taken + 1)[q] by {
                    assert(rest@[q] == rv[q + 1]);
                    assert(raw_attr_views(rv)[q + 1] == av.skip(taken)[q + 1]);
                }
            }
        }
        let (is_derive, byte_range, line_range, read) = a;
        let paths: Vec<Vec<String>> = if is_derive {
            match read {
                Ok(p) => p,
                Err(e) => {
                    proof {
                        assert(unreadable_derive(av[taken]));
                        assert(!attrs_readable(av));
                    }
                    return Err(e);
                },
            }
        } else {
            Vec::new()
        };
        let ghost prev = out@;
        let at = AttrSyntax { is_derive, paths, byte_range, line_range };
        out.push(at);
        proof {
            assert(av.take(taken + 1) =~= av.take(taken).push(av[taken]));
            assert(attr_view(at) == attr_syntax_of(av[taken])) by {
                assert(path_strs(at.paths@) =~= attr_syntax_of(av[taken]).1);
            }
            assert(attr_views(out@) =~= attr_views(prev).push(attr_view(at)));
            assert(attrs_syntax_of(av.take(taken + 1)) =~= attrs_syntax_of(av.take(taken)).push(
                attr_syntax_of(av[taken]),
            ));
            assert forall|j: int| 0 <= j < taken + 1 implies !unreadable_derive(
                #[trigger] av.take(taken + 1)[j],
            ) by {
                if j < taken {
                    assert(av.take(taken + 1)[j] == av.take(taken)[j]);
                }
            }
            taken = taken + 1;
        }
    }
    proof {
        assert(av.take(taken) =~= av);
    }
    Ok(out)
}

/// The structs and enums of a reading with their attributes, the paths of
/// derive attributes taken out; the first unreadable derive's error.
fn items_from_reading(raw: Vec<Option<SynItem>>) -> (r: Result<Vec<ItemSyntax>, syn::Error>)
    ensures
        match r {
            Ok(v) => reading_ok(raw_views(raw@)) && syntax_views(v@) == syntax_of(raw_views(raw@)),
            Err(_) => !reading_ok(raw_views(raw@)),
        },
{
    let ghost rd = raw_views(raw@);
    let mut rest = raw;
    let mut out: Vec<ItemSyntax> = Vec::new();
    let ghost mut taken: int = 0;
    assert(rd.take(0) =~= Seq::<Option<RawItem>>::empty());
    assert(syntax_views(out@) =~= Seq::<ItemSyntaxView>::empty());
    while rest.len() > 0
        invariant
            rd == raw_views(raw@),
            0 <= taken <= rd.len(),
            rd.len() == taken + rest@.len(),
            raw_views(rest@) == rd.skip(taken),
            reading_ok(rd.take(taken)),
            syntax_views(out@) == syntax_of(rd.take(taken)),
        decreases rest@.len(),
    {
        let ghost rv = rest@;
        let item = rest.remove(0);
        proof {
            assert(raw_views(rv)[0] == rd.skip(taken)[0]);
            assert(rest@ =~= rv.skip(1));
            assert(raw_views(rest@) =~= rd.skip(taken + 1)) by {
                assert forall|q: int| 0 <= q < rest@.len() implies #[trigger] raw_views(rest@)[q]
                    == rd.skip(taken + 1)[q] by {
                    assert(rest@[q] == rv[q + 1]);
                    assert(raw_views(rv)[q + 1] == rd.skip(taken)[q + 1]);
                }
            }
            assert(rd.take(taken + 1).drop_last() =~= rd.take(taken));
            assert(rd.take(taken + 1).last() == rd[taken]);
        }
        match item {
            None => {
                proof {
                    assert forall|i: int| 0 <= i < taken + 1 implies match #[trigger] rd.take(taken + 1)[i] {
                        Some(it) => attrs_readable(it.2),
                        None => true,
                    } by {
                        if i < taken {
                            assert(rd.take(taken + 1)[i] == rd.take(taken)[i]);
                        }
                    }
                }
            },
            Some((name, line, attrs)) => {
                let ghost it_view = rd[taken];
                let shaped = match attrs_from_reading(attrs) {
                    Ok(v) => v,
                    Err(e) => {
                        proof {
                            assert(match rd[taken] {
                                Some(it) => !attrs_readable(it.2),
                                None => false,
                            });
                            assert(!reading_ok(rd));
                        }
                        return Err(e);
                    },
                };
                let ghost prev = out@;
                let entry = ItemSyntax { name, line, attrs: shaped };
                out.push(entry);
                proof {
                    assert(syntax_views(out@) =~= syntax_views(prev).push(
                        (entry.name@, entry.line, attr_views(entry.attrs@)),
                    ));
                    assert forall|i: int| 0 <= i < taken + 1 implies match #[trigger] rd.take(taken + 1)[i] {
                        Some(it) => attrs_readable(it.2),
                        None => true,
                    } by {
                        if i < taken {
                            assert(rd.take(taken + 1)[i] == rd.take(taken)[i]);
                        }
                    }
                }
            },
        }
        proof {
            taken = taken + 1;
        }
    }
    proof {
        assert(rd.take(taken) =~= rd);
    }
    Ok(out)
}

/// The `::`-joined text of each path of `paths`.
pub open spec fn joined_paths(paths: Seq<Seq<Seq<char>>>) -> Seq<Seq<char>>
    decreases paths.len(),
{
    if paths.len() == 0 {
        Seq::empty()
    } else {
        joined_paths(paths.drop_last()).push(join_with(paths.last(), seq![':', ':']))
    }
}

/// The derive attributes of `attrs`, in order, each with its paths joined.
pub open spec fn derive_attrs_of(attrs: Seq<AttrView>) -> Seq<(Seq<Seq<char>>, Range<usize>, Range<usize>)>
    decreases attrs.len(),
{
    if attrs.len() == 0 {
        Seq::empty()
    } else if attrs.last().0 {
        derive_attrs_of(attrs.drop_last()).push((joined_paths(attrs.last().1), attrs.last().2, attrs.last().3))
    } else {
        derive_attrs_of(attrs.drop_last())
    }
}

/// What an extracted item holds: name, line, and per derive attribute its
/// derives and ranges.
pub open spec fn extracted_view(e: Extracted) -> (Seq<char>, usize, Seq<(Seq<Seq<char>>, Range<usize>, Range<usize>)>) {
    (e.name@, e.line, e.attrs@.map_values(|a: DeriveAttr| (strs(a.typepaths@), a.byte_range, a.line_range)))
}

/// What the extracted items hold.
pub open spec fn extracted_views(exts: Seq<Extracted>) -> Seq<(Seq<char>, usize, Seq<(Seq<Seq<char>>, Range<usize>, Range<usize>)>)> {
    exts.map_values(|e: Extracted| extracted_view(e))
}

/// The items of `items` that carry a derive attribute, each with its
/// derive attributes, in order.
pub open spec fn extracted_of(items: Seq<ItemSyntaxView>) -> Seq<(Seq<char>, usize, Seq<(Seq<Seq<char>>, Range<usize>, Range<usize>)>)>
    decreases items.len(),
{
    if items.len() == 0 {
        Seq::empty()
    } else if derive_attrs_of(items.last().2).len() > 0 {
        extracted_of(items.drop_last()).push((items.last().0, items.last().1, derive_attrs_of(items.last().2)))
    } else {
        extracted_of(items.drop_last())
    }
}

/// What stripping works from: the structs and enums that syn reads from
/// `source` that carry derive attributes, with those derives; `None` when
/// the source does not parse or a derive's arguments are not a list of
/// paths.
pub open spec fn extraction_of(source: Seq<char>) -> Option<Seq<(Seq<char>, usize, Seq<(Seq<Seq<char>>, Range<usize>, Range<usize>)>)>> {
    match syn_reading(source) {
        Some(rd) => if reading_ok(rd) {
            Some(extracted_of(syntax_of(rd)))
        } else {
            None
        },
        None => None,
    }
}

/// Joins the segments of a path with `::`.
fn join_segments(segments: &Vec<String>) -> (r: String)
    ensures
        r@ == join_with(strs(segments@), seq![':', ':']),
{
    let mut out: Vec<char> = Vec::new();
    let sep = vec![':', ':'];
    push_joined(&mut out, segments.as_slice(), sep.as_slice());
    proof {
        assert(sep@ =~= seq![':', ':']);
        assert(segments@.map_values(|s: String| s@) == strs(segments@));
    }
    string_of(out.as_slice())
}

/// The items of `items` that carry derive attributes, with those
/// attributes and their paths joined by `::` ([`extracted_of`]).
pub fn extract_from_syntax(items: &Vec<ItemSyntax>) -> (r: Vec<Extracted>)
    ensures
        extracted_views(r@) == extracted_of(syntax_views(items@)),
{
    let ghost sv = syntax_views(items@);
    let mut out: Vec<Extracted> = Vec::new();
    let n = items.len();
    let mut k: usize = 0;
    assert(sv.take(0) =~= Seq::<ItemSyntaxView>::empty());
    assert(extracted_views(out@) =~= extracted_of(sv.take(0)));
    while k < n
        invariant
            n == items@.len(),
            sv == syntax_views(items@),
            k <= n,
            extracted_views(out@) == extracted_of(sv.take(k as int)),
        decreases n - k,
    {
        let it = &items[k];
        proof {
            assert(sv.take(k as int + 1).drop_last() =~= sv.take(k as int));
            assert(sv.take(k as int + 1).last() == sv[k as int]);
            assert(sv[k as int] == (it.name@, it.line, attr_views(it.attrs@)));
        }
        let ghost av = attr_views(it.attrs@);
        let mut derive_attrs: Vec<DeriveAttr> = Vec::new();
        let mut j: usize = 0;
        assert(av.take(0) =~= Seq::<AttrView>::empty());
        while j < it.attrs.len()
            invariant
                av == attr_views(it.attrs@),
                j <= it.attrs@.len(),
                derive_attrs@.map_values(|a: DeriveAttr| (strs(a.typepaths@), a.byte_range, a.line_range))
                    == derive_attrs_of(av.take(j as int)),
            decreases it.attrs@.len() - j,
        {
            let a = &it.attrs[j];
            proof {
                assert(av.take(j as int + 1).drop_last() =~= av.take(j as int));
                assert(av.take(j as int + 1).last() == attr_view(*a));
            }
            if a.is_derive {
                let mut typepaths: Vec<String> = Vec::new();
                let mut q: usize = 0;
                let ghost ps = path_strs(a.paths@);
                assert(ps.take(0) =~= Seq::<Seq<Seq<char>>>::empty());
                while q < a.paths.len()
                    invariant
                        ps == path_strs(a.paths@),
                        q <= a.paths@.len(),
                        strs(typepaths@) == joined_paths(ps.take(q as int)),
                    decreases a.paths@.len() - q,
                {
                    let joined = join_segments(&a.paths[q]);
                    proof {
                        assert(ps.take(q as int + 1).drop_last() =~= ps.take(q as int));
                        assert(ps.take(q as int + 1).last() == strs(a.paths@[q as int]@));
                        lemma_strs_push(typepaths@, joined);
                    }
                    typepaths.push(joined);
                    q = q + 1;
                }
                proof {
                    assert(ps.take(a.paths@.len() as int) == ps);
                }
                let ghost before = derive_attrs@;
                let da = DeriveAttr {
                    typepaths,
                    byte_range: a.byte_range.start..a.byte_range.end,
                    line_range: a.line_range.start..a.line_range.end,
                };
                derive_attrs.push(da);
                proof {
                    assert(derive_attrs@.map_values(|a: DeriveAttr| (strs(a.typepaths@), a.byte_range, a.line_range))
                        =~= before.map_values(|a: DeriveAttr| (strs(a.typepaths@), a.byte_range, a.line_range)).push(
                        (strs(da.typepaths@), da.byte_range, da.line_range)));
                }
            }
            j = j + 1;
        }
        proof {
            assert(av.take(it.attrs@.len() as int) == av);
        }
        if derive_attrs.len() > 0 {
            let ghost before = out@;
            let e = Extracted { name: it.name.clone(), line: it.line, attrs: derive_attrs };
            out.push(e);
            proof {
                assert(extracted_views(out@) =~= extracted_views(before).push(extracted_view(e)));
                assert(extracted_view(e).2 == derive_attrs_of(av));
            }
        } else {
            proof {
                assert(derive_attrs@.map_values(|a: DeriveAttr| (strs(a.typepaths@), a.byte_range, a.line_range)).len() == 0);
            }
        }
        k = k + 1;
    }
    proof {
        assert(sv.take(n as int) == sv);
    }
    out
}

/// The structs and enums of `source` that carry derive attributes, with
/// their derives, as syn reads them ([`extraction_of`]); syn's error when
/// the source does not parse or a derive's arguments are not a
/// comma-separated list of paths.
pub fn extract_items(source: &str) -> (r: Result<Vec<Extracted>, syn::Error>)
    ensures
        match extraction_of(source@) {
            Some(x) => r matches Ok(exts) && extracted_views(exts@) == x,
            None => r is Err,
        },
{
    let shapes = syn_item_shapes(source)?;
    let args = syn_derive_args(source)?;
    let raw = zip_items(shapes, args);
    let items = items_from_reading(raw)?;
    Ok(extract_from_syntax(&items))
}

/// Whether the byte ranges of `exts` satisfy [`ranges_ok`] in `source`.
fn check_ranges(source: &str, exts: &Vec<Extracted>) -> (r: bool)
    ensures
        r == ranges_ok(encode_utf8(source@), all_ranges(exts@)),
{
    let ghost b = encode_utf8(source@);
    let ghost flat = all_ranges(exts@);
    let bytes = source.as_bytes();
    let len = bytes.len();
    let mut prev: usize = 0;
    let ghost mut done: Seq<(int, int)> = Seq::empty();
    let n = exts.len();
    let mut k: usize = 0;
    proof {
        encode_utf8_valid_utf8(source@);
        is_char_boundary_start_end_of_seq(b);
    }
    while k < n
        invariant
            n == exts@.len(),
            len == b.len(),
            b == encode_utf8(source@),
            flat == all_ranges(exts@),
            k <= n,
            done == all_ranges(exts@.take(k as int)),
            flat.take(done.len() as int) == done,
            done.len() <= flat.len(),
            ranges_ok(b, done),
            prev == end_of(done),
            prev <= len,
        decreases n - k,
    {
        let ext = &exts[k];
        let ghost base = done;
        let ghost attrs = ext.attrs@;
        proof {
            lemma_all_ranges_take(exts@, k as int);
            lemma_ranges_of_take(attrs, 0);
        }
        let mut j: usize = 0;
        while j < ext.attrs.len()
            invariant
                n == exts@.len(),
                k < n,
                len == b.len(),
                b == encode_utf8(source@),
                attrs == ext.attrs@,
                *ext == exts@[k as int],
                flat == all_ranges(exts@),
                base == all_ranges(exts@.take(k as int)),
                all_ranges(exts@.take(k as int + 1)) == base + ranges_of(attrs),
                flat.take(all_ranges(exts@.take(k as int + 1)).len() as int) == all_ranges(exts@.take(k as int + 1)),
                all_ranges(exts@.take(k as int + 1)).len() <= flat.len(),
                j <= attrs.len(),
                done == base + ranges_of(attrs.take(j as int)),
                flat.take(done.len() as int) == done,
                ranges_ok(b, done),
                prev == end_of(done),
                prev <= len,
            decreases attrs.len() - j,
        {
            let a = &ext.attrs[j];
            let start = a.byte_range.start;
            let end = a.byte_range.end;
            let ghost nd = done.push((start as int, end as int));
            proof {
                assert(attrs.take(j as int + 1).drop_last() =~= attrs.take(j as int));
                assert(attrs.take(j as int + 1).last() == *a);
                lemma_ranges_of_take(attrs, j as int + 1);
                lemma_ranges_of_take(attrs.take(j as int), j as int);
                assert(nd =~= base + ranges_of(attrs.take(j as int + 1)));
                let whole = all_ranges(exts@.take(k as int + 1));
                assert(whole.take(nd.len() as int) =~= nd);
                assert(flat.take(nd.len() as int) =~= nd);
            }
            if !(prev <= start && start <= end && end <= len && source.is_char_boundary(start)
                && source.is_char_boundary(end)) {
                proof {
                    let i = done.len() as int;
                    assert(flat.take(nd.len() as int)[i] == flat[i]);
                    assert(flat[i] == (start as int, end as int));
                    if done.len() > 0 {
                        assert(flat[i - 1] == done.last());
                    }
                }
                return false;
            }
            proof {
                assert forall|i: int, q: int| 0 <= i < q < nd.len() implies (#[trigger] nd[i]).1
                    <= (#[trigger] nd[q]).0 by {
                    if q == nd.len() - 1 && i < done.len() - 1 {
                        assert(done[i].1 <= done[done.len() - 1].0);
                    }
                }
            }
            prev = end;
            proof {
                done = nd;
            }
            j = j + 1;
        }
        proof {
            assert(attrs.take(attrs.len() as int) == attrs);
        }
        k = k + 1;
    }
    proof {
        assert(exts@.take(n as int) == exts@);
        assert(flat.take(flat.len() as int) == flat);
    }
    true
}

/// Whether `exts` satisfies [`shifts_ok`].
fn check_shifts(exts: &Vec<Extracted>) -> (r: bool)
    ensures
        r == shifts_ok(exts@),
{
    let ghost e = exts@;
    let n = exts.len();
    let mut shift: i128 = 0;
    let mut k: usize = 0;
    while k < n
        invariant
            n == e.len(),
            e == exts@,
            k <= n,
            shift == line_shift(e.take(k as int)),
            isize::MIN <= shift <= isize::MAX,
            forall|kk: int, j: int|
                0 <= kk < k && 0 <= j <= e[kk].attrs@.len() ==> isize::MIN <= line_shift(
                    #[trigger] e.take(kk),
                ) + attrs_shift(#[trigger] e[kk].attrs@.take(j)) <= isize::MAX,
            forall|kk: int, j: int|
                0 <= kk < k && 0 <= j < e[kk].attrs@.len() ==> (#[trigger] e[kk].attrs@[j]).line_range.start
                    <= e[kk].attrs@[j].line_range.end < isize::MAX,
            forall|kk: int|
                0 <= kk < k ==> (#[trigger] e[kk]).line <= isize::MAX && 0 <= e[kk].line
                    + line_shift(e.take(kk + 1)) <= isize::MAX,
        decreases n - k,
    {
        let ext = &exts[k];
        let ghost attrs = ext.attrs@;
        let ghost base = shift as int;
        let mut cur: i128 = shift;
        let mut j: usize = 0;
        assert(attrs.take(0) =~= Seq::<DeriveAttr>::empty());
        while j < ext.attrs.len()
            invariant
                n == e.len(),
                e == exts@,
                k < n,
                base == line_shift(e.take(k as int)),
                attrs == ext.attrs@,
                *ext == e[k as int],
                j <= attrs.len(),
                cur == base + attrs_shift(attrs.take(j as int)),
                isize::MIN <= cur <= isize::MAX,
                forall|jj: int| 0 <= jj <= j ==> isize::MIN <= base + attrs_shift(#[trigger] attrs.take(jj)) <= isize::MAX,
                forall|jj: int| 0 <= jj < j ==> (#[trigger] attrs[jj]).line_range.start <= attrs[jj].line_range.end < isize::MAX,
            decreases attrs.len() - j,
        {
            let a = &ext.attrs[j];
            proof {
                assert(attrs.take(j as int + 1).drop_last() =~= attrs.take(j as int));
                assert(attrs.take(j as int + 1).last() == *a);
            }
            if !(a.line_range.start <= a.line_range.end && a.line_range.end < isize::MAX as usize) {
                proof {
                    assert(e[k as int].attrs@[j as int] == *a);
                }
                return false;
            }
            let delta: i128 = 2 - ((a.line_range.end - a.line_range.start) as i128 + 1);
            cur = cur + delta;
            if !(isize::MIN as i128 <= cur && cur <= isize::MAX as i128) {
                proof {
                    assert(attrs_shift(attrs.take(j as int + 1)) == attrs_shift(attrs.take(j as int)) + line_delta(*a));
                    assert(line_shift(e.take(k as int)) + attrs_shift(e[k as int].attrs@.take(j as int + 1)) == cur);
                }
                return false;
            }
            j = j + 1;
        }
        proof {
            assert(attrs.take(attrs.len() as int) == attrs);
            assert(e.take(k as int + 1).drop_last() =~= e.take(k as int));
            assert(e.take(k as int + 1).last() == e[k as int]);
        }
        if !(ext.line <= isize::MAX as usize && 0 <= ext.line as i128 + cur && ext.line as i128 + cur
            <= isize::MAX as i128) {
            return false;
        }
        shift = cur;
        k = k + 1;
    }
    true
}

/// Replaces the derive attributes of `extracted` in `source` by placeholder
/// blocks, as [`edit_source`] does, when their ranges and line counts allow
/// it ([`ranges_ok`], [`shifts_ok`]); otherwise leaves `source` as it is and
/// returns `None`.
pub fn edit_source_checked(source: &mut String, extracted: Vec<Extracted>) -> (r: Option<Vec<Item>>)
    ensures
        (ranges_ok(encode_utf8(old(source)@), all_ranges(extracted@)) && shifts_ok(extracted@))
            == r is Some,
        r is None ==> final(source)@ == old(source)@,
        r matches Some(items) ==> {
            &&& encode_utf8(final(source)@) == replaced(
                encode_utf8(old(source)@),
                all_ranges(extracted@),
                encode_utf8(substitution()),
            )
            &&& items@.len() == extracted@.len()
            &&& forall|k: int| 0 <= k < items@.len() ==> (#[trigger] items@[k])@ == recorded_item(extracted@, k)
        },
{
    if check_ranges(source.as_str(), &extracted) && check_shifts(&extracted) {
        Some(edit_source(source, extracted))
    } else {
        None
    }
}

/// Strips every derive of the structs and enums of `source`, as
/// [`edit_source_checked`] does with what [`extract_items`] finds
/// ([`extraction_of`]): syn's error, with the source untouched, when there
/// is no extraction; `None`, with the source untouched, when the ranges of
/// the extraction do not fit the source; else the edit and the items of
/// [`edit_source`] for the extraction.
pub fn remove_derives_from_source(source: &mut String) -> (r: Result<Option<Vec<Item>>, syn::Error>)
    ensures
        extraction_of(old(source)@) is None ==> r is Err,
        r is Err ==> final(source)@ == old(source)@,
        r matches Ok(None) ==> final(source)@ == old(source)@,
        extraction_of(old(source)@) matches Some(x) ==> r matches Ok(o) && exists|exts: Seq<Extracted>|
            #![trigger extracted_views(exts)]
            {
                &&& extracted_views(exts) == x
                &&& (o is Some <==> (ranges_ok(encode_utf8(old(source)@), all_ranges(exts))
                    && shifts_ok(exts)))
                &&& o matches Some(items) ==> {
                    &&& encode_utf8(final(source)@) == replaced(
                        encode_utf8(old(source)@),
                        all_ranges(exts),
                        encode_utf8(substitution()),
                    )
                    &&& items@.len() == exts.len()
                    &&& forall|k: int| 0 <= k < items@.len() ==> (#[trigger] items@[k])@ == recorded_item(exts, k)
                }
            },
{
    let extracted = extract_items(source.as_str())?;
    let ghost exts = extracted@;
    let r = edit_source_checked(source, extracted);
    proof {
        assert({
            &&& extracted_views(exts) == extraction_of(old(source)@)->0
            &&& (r is Some <==> (ranges_ok(encode_utf8(old(source)@), all_ranges(exts))
                && shifts_ok(exts)))
            &&& r matches Some(items) ==> {
                &&& encode_utf8(source@) == replaced(
                    encode_utf8(old(source)@),
                    all_ranges(exts),
                    encode_utf8(substitution()),
                )
                &&& items@.len() == exts.len()
                &&& forall|k: int| 0 <= k < items@.len() ==> (#[trigger] items@[k])@ == recorded_item(exts, k)
            }
        });
    }
    Ok(r)
}


// ---------------------------------------------------------------------------
// Sandbox lines
// ---------------------------------------------------------------------------

/// How many line breaks `s` holds.
pub open spec fn line_breaks(s: Seq<u8>) -> int
    decreases s.len(),
{
    if s.len() == 0 {
        0
    } else {
        line_breaks(s.drop_last()) + if s.last() == 10u8 {
            1int
        } else {
            0int
        }
    }
}

/// The line ranges of the attributes of `exts` agree with the bytes `b`:
/// each attribute holds as many line breaks as its last line is past its
/// first.
pub open spec fn lines_agree(b: Seq<u8>, exts: Seq<Extracted>) -> bool {
    forall|k: int, j: int|
        #![trigger exts[k].attrs@[j]]
        0 <= k < exts.len() && 0 <= j < exts[k].attrs@.len() ==> line_breaks(
            b.subrange(
                exts[k].attrs@[j].byte_range.start as int,
                exts[k].attrs@[j].byte_range.end as int,
            ),
        ) == exts[k].attrs@[j].line_range.end - exts[k].attrs@[j].line_range.start
}

proof fn lemma_line_breaks_concat(s: Seq<u8>, t: Seq<u8>)
    ensures
        line_breaks(s + t) == line_breaks(s) + line_breaks(t),
    decreases t.len(),
{
    if t.len() == 0 {
        assert(s + t =~= s);
    } else {
        lemma_line_breaks_concat(s, t.drop_last());
        assert((s + t).drop_last() =~= s + t.drop_last());
        assert((s + t).last() == t.last());
    }
}

proof fn lemma_line_breaks_split(b: Seq<u8>, x: int, y: int)
    requires
        0 <= x <= y <= b.len(),
    ensures
        line_breaks(b.take(y)) == line_breaks(b.take(x)) + line_breaks(b.subrange(x, y)),
{
    assert(b.take(y) =~= b.take(x) + b.subrange(x, y));
    lemma_line_breaks_concat(b.take(x), b.subrange(x, y));
}

proof fn lemma_no_line_breaks(s: Seq<u8>)
    requires
        forall|i: int| 0 <= i < s.len() ==> #[trigger] s[i] != 10u8,
    ensures
        line_breaks(s) == 0,
    decreases s.len(),
{
    if s.len() > 0 {
        let t = s.drop_last();
        assert forall|i: int| 0 <= i < t.len() implies #[trigger] t[i] != 10u8 by {
            assert(t[i] == s[i]);
        }
        lemma_no_line_breaks(t);
        assert(s.last() == s[s.len() - 1]);
    }
}

/// The placeholder block is one line: its text ends in the only line break
/// it holds.
proof fn lemma_substitution_one_line()
    ensures
        line_breaks(encode_utf8(substitution())) == 1,
{
    reveal_strlit("// __DERIVE_PLACEHOLDER__\n");
    let c = substitution();
    assert(is_ascii_chars(c));
    is_ascii_chars_encode_utf8(c);
    let e = encode_utf8(c);
    let t = e.drop_last();
    assert forall|i: int| 0 <= i < t.len() implies #[trigger] t[i] != 10u8 by {
        assert(t[i] == e[i]);
        assert(e[i] == c[i] as u8);
    }
    lemma_no_line_breaks(t);
    assert(e.last() == c[c.len() - 1] as u8);
}

proof fn lemma_ranges_ok_take(b: Seq<u8>, rs: Seq<(int, int)>, n: int)
    requires
        ranges_ok(b, rs),
        0 <= n <= rs.len(),
    ensures
        ranges_ok(b, rs.take(n)),
{
    let t = rs.take(n);
    assert forall|i: int| 0 <= i < t.len() implies #[trigger] t[i] == rs[i] by {}
    assert forall|i: int, j: int| 0 <= i < j < t.len() implies (#[trigger] t[i]).1 <= (
    #[trigger] t[j]).0 by {
        assert(t[i] == rs[i] && t[j] == rs[j]);
    }
}

/// The edit of one more range adds the line breaks of the placeholder and
/// takes away those of the range.
proof fn lemma_attrs_lines(b: Seq<u8>, rs0: Seq<(int, int)>, attrs: Seq<DeriveAttr>)
    requires
        ranges_ok(b, rs0 + ranges_of(attrs)),
        forall|j: int|
            #![trigger attrs[j]]
            0 <= j < attrs.len() ==> line_breaks(
                b.subrange(attrs[j].byte_range.start as int, attrs[j].byte_range.end as int),
            ) == attrs[j].line_range.end - attrs[j].line_range.start,
    ensures
        line_breaks(replaced_prefix(b, rs0 + ranges_of(attrs), encode_utf8(substitution())))
            - line_breaks(b.take(end_of(rs0 + ranges_of(attrs)))) == line_breaks(
            replaced_prefix(b, rs0, encode_utf8(substitution())),
        ) - line_breaks(b.take(end_of(rs0))) + attrs_shift(attrs),
    decreases attrs.len(),
{
    let rep = encode_utf8(substitution());
    if attrs.len() == 0 {
        assert(rs0 + ranges_of(attrs) =~= rs0);
    } else {
        let aa = attrs.drop_last();
        let a = attrs.last();
        let pr = rs0 + ranges_of(aa);
        let r = (a.byte_range.start as int, a.byte_range.end as int);
        let all = rs0 + ranges_of(attrs);
        assert(all =~= pr.push(r));
        lemma_ranges_ok_take(b, all, pr.len() as int);
        assert(all.take(pr.len() as int) =~= pr);
        assert forall|j: int| #![trigger aa[j]] 0 <= j < aa.len() implies line_breaks(
            b.subrange(aa[j].byte_range.start as int, aa[j].byte_range.end as int),
        ) == aa[j].line_range.end - aa[j].line_range.start by {
            assert(aa[j] == attrs[j]);
        }
        lemma_attrs_lines(b, rs0, aa);
        assert(all.drop_last() =~= pr);
        assert(all.last() == r);
        assert(all[pr.len() as int] == r);
        let e = end_of(pr);
        if pr.len() > 0 {
            assert(all[pr.len() - 1] == pr.last());
            assert(all[pr.len() - 1].1 <= all[pr.len() as int].0);
        }
        assert(0 <= e <= r.0 <= r.1 <= b.len());
        assert(replaced_prefix(b, all, rep) == replaced_prefix(b, pr, rep) + b.subrange(e, r.0) + rep);
        lemma_line_breaks_concat(replaced_prefix(b, pr, rep), b.subrange(e, r.0));
        lemma_line_breaks_concat(replaced_prefix(b, pr, rep) + b.subrange(e, r.0), rep);
        lemma_line_breaks_split(b, e, r.0);
        lemma_line_breaks_split(b, r.0, r.1);
        lemma_substitution_one_line();
        assert(attrs[attrs.len() - 1] == a);
    }
}

/// The line breaks the edits of every attribute of `exts` add, up to the
/// end of the last of them, are [`line_shift`].
proof fn lemma_shift_lines(b: Seq<u8>, exts: Seq<Extracted>)
    requires
        ranges_ok(b, all_ranges(exts)),
        lines_agree(b, exts),
    ensures
        line_breaks(replaced_prefix(b, all_ranges(exts), encode_utf8(substitution()))) - line_breaks(
            b.take(end_of(all_ranges(exts))),
        ) == line_shift(exts),
    decreases exts.len(),
{
    if exts.len() == 0 {
        assert(b.take(0) =~= Seq::<u8>::empty());
    } else {
        let pre = exts.drop_last();
        let rs0 = all_ranges(pre);
        let attrs = exts.last().attrs@;
        lemma_ranges_ok_take(b, all_ranges(exts), rs0.len() as int);
        assert(all_ranges(exts).take(rs0.len() as int) =~= rs0);
        assert forall|k: int, j: int|
            #![trigger pre[k].attrs@[j]]
            0 <= k < pre.len() && 0 <= j < pre[k].attrs@.len() implies line_breaks(
            b.subrange(pre[k].attrs@[j].byte_range.start as int, pre[k].attrs@[j].byte_range.end as int),
        ) == pre[k].attrs@[j].line_range.end - pre[k].attrs@[j].line_range.start by {
            assert(pre[k] == exts[k]);
        }
        lemma_shift_lines(b, pre);
        assert forall|j: int|
            #![trigger attrs[j]]
            0 <= j < attrs.len() implies line_breaks(
                b.subrange(attrs[j].byte_range.start as int, attrs[j].byte_range.end as int),
            ) == attrs[j].line_range.end - attrs[j].line_range.start by {
            assert(exts[exts.len() - 1] == exts.last());
            assert(exts[exts.len() - 1].attrs@[j] == attrs[j]);
        }
        lemma_attrs_lines(b, rs0, attrs);
    }
}

/// Replacing the ranges of `rs` keeps, ahead of the `m`-th range, what the
/// edit of the first `m` ranges wrote and the text up to that range.
proof fn lemma_replaced_prefix_keeps(b: Seq<u8>, rs: Seq<(int, int)>, m: int, rep: Seq<u8>)
    requires
        ranges_ok(b, rs),
        0 <= m < rs.len(),
    ensures
        replaced_prefix(b, rs.take(m), rep).len() + (rs[m].0 - end_of(rs.take(m))) <= replaced_prefix(
            b,
            rs,
            rep,
        ).len(),
        replaced_prefix(b, rs, rep).take(
            replaced_prefix(b, rs.take(m), rep).len() + (rs[m].0 - end_of(rs.take(m))),
        ) == replaced_prefix(b, rs.take(m), rep) + b.subrange(end_of(rs.take(m)), rs[m].0),
    decreases rs.len(),
{
    let pm = rs.take(m);
    let e = end_of(pm);
    if m > 0 {
        assert(pm.last() == rs[m - 1]);
        assert(rs[m - 1].1 <= rs[m].0);
    }
    assert(0 <= e <= rs[m].0 <= b.len());
    if m == rs.len() - 1 {
        assert(rs.drop_last() =~= pm);
        let x = replaced_prefix(b, pm, rep) + b.subrange(e, rs[m].0);
        assert(replaced_prefix(b, rs, rep) == x + rep);
        assert((x + rep).take(x.len() as int) =~= x);
    } else {
        let d = rs.drop_last();
        lemma_ranges_ok_take(b, rs, d.len() as int);
        assert(rs.take(d.len() as int) =~= d);
        assert(d.take(m) =~= pm);
        assert(d[m] == rs[m]);
        lemma_replaced_prefix_keeps(b, d, m, rep);
        let l = replaced_prefix(b, pm, rep).len() + (rs[m].0 - e);
        let y = replaced_prefix(b, d, rep);
        let z = b.subrange(end_of(d), rs.last().0) + rep;
        assert(replaced_prefix(b, rs, rep) =~= y + z);
        assert((y + z).take(l) =~= y.take(l));
    }
}

/// After stripping, each recorded item's sandbox line is the line of the
/// edited source on which its name stands, however many lines each
/// stripped attribute spanned. Here the `k`-th item's name starts at byte
/// `q` of the source `b`, after its own attributes and before those of the
/// next items, on line `exts[k].line`; in the edited source the same text
/// starts at byte `q2`, and the line of `q2` is the recorded sandbox line.
pub proof fn law_sandbox_line_is_name_line(b: Seq<u8>, exts: Seq<Extracted>, k: int, q: int)
    requires
        ranges_ok(b, all_ranges(exts)),
        shifts_ok(exts),
        lines_agree(b, exts),
        0 <= k < exts.len(),
        end_of(all_ranges(exts.take(k + 1))) <= q <= b.len(),
        all_ranges(exts.take(k + 1)).len() < all_ranges(exts).len() ==> q <= all_ranges(exts)[all_ranges(
            exts.take(k + 1),
        ).len() as int].0,
        exts[k].line == 1 + line_breaks(b.take(q)),
    ensures
        ({
            let rs = all_ranges(exts);
            let done = all_ranges(exts.take(k + 1));
            let edited = replaced(b, rs, encode_utf8(substitution()));
            let q2 = replaced_prefix(b, done, encode_utf8(substitution())).len() + (q - end_of(done));
            let x = if done.len() < rs.len() {
                rs[done.len() as int].0
            } else {
                b.len() as int
            };
            &&& q2 + (x - q) <= edited.len()
            &&& edited.subrange(q2, q2 + (x - q)) == b.subrange(q, x)
            &&& recorded_item(exts, k).lineno_sandbox == 1 + line_breaks(edited.take(q2))
        }),
{
    let rep = encode_utf8(substitution());
    let rs = all_ranges(exts);
    let done = all_ranges(exts.take(k + 1));
    let m = done.len() as int;
    lemma_all_ranges_prefix(exts, k + 1);
    assert(rs.take(m) == done);
    let edited = replaced(b, rs, rep);
    let ed = end_of(done);
    let pd = replaced_prefix(b, done, rep);
    let q2 = pd.len() + (q - ed);
    let x = if m < rs.len() {
        rs[m].0
    } else {
        b.len() as int
    };
    // the edited text up to the next range
    let head = pd + b.subrange(ed, x);
    if m < rs.len() {
        lemma_replaced_prefix_keeps(b, rs, m, rep);
        assert(edited.take(head.len() as int) == head);
    } else {
        assert(rs =~= done);
        assert(edited == head);
        assert(edited.take(head.len() as int) =~= head);
    }
    assert(head.len() == q2 + (x - q));
    assert(edited.subrange(q2, q2 + (x - q)) =~= edited.take(head.len() as int).subrange(q2, q2 + (x - q)));
    assert(head.subrange(q2, q2 + (x - q)) =~= b.subrange(q, x));
    assert(edited.take(q2) =~= pd + b.subrange(ed, q)) by {
        assert(edited.take(q2) =~= edited.take(head.len() as int).take(q2));
    }
    // count the lines
    lemma_line_breaks_concat(pd, b.subrange(ed, q));
    lemma_line_breaks_split(b, ed, q);
    lemma_ranges_ok_take(b, rs, m);
    assert(lines_agree(b, exts.take(k + 1))) by {
        assert forall|kk: int, j: int|
            #![trigger exts.take(k + 1)[kk].attrs@[j]]
            0 <= kk < exts.take(k + 1).len() && 0 <= j < exts.take(k + 1)[kk].attrs@.len() implies line_breaks(
            b.subrange(
                exts.take(k + 1)[kk].attrs@[j].byte_range.start as int,
                exts.take(k + 1)[kk].attrs@[j].byte_range.end as int,
            ),
        ) == exts.take(k + 1)[kk].attrs@[j].line_range.end - exts.take(k + 1)[kk].attrs@[j].line_range.start by {
            assert(exts.take(k + 1)[kk] == exts[kk]);
        }
    }
    lemma_shift_lines(b, exts.take(k + 1));
    assert(0 <= exts[k].line + line_shift(exts.take(k + 1)) <= isize::MAX);
}

} // verus!
