//! Compiler diagnostics and the text matching that ties a diagnostic to the
//! item and the derive it is about.

use vstd::prelude::*;

use cargo_metadata::diagnostic::{DiagnosticLevel, DiagnosticSpan as CargoSpan};
use cargo_metadata::Message;

use crate::error::ToolError;
use crate::path::{paths_equal, same_path};
use crate::text::{
    ascii_upper, chars_of, find_from, find_seq, is_ascii_upper, is_ident_char, is_white, lemma_find_seq, lemma_split_by_last_piece,
    lemma_split_by_nonempty, lemma_split_by_plain, lemma_split_by_prefix, lemma_trim_white_around, occurs,
    lemma_views_push, same_chars, slice_chars, split, split_by, string_of, trim_white,
    trim_white_range, views, Separator,
};

verus! {

broadcast use {vstd::string::group_string_axioms, vstd::slice::group_slice_axioms};

// ---------------------------------------------------------------------------
// Names and paths inside diagnostic text
// ---------------------------------------------------------------------------

/// What follows the last `::` in `s`, or all of `s` when it holds none
/// (`s.rsplit("::").next()`).
pub open spec fn last_segment(s: Seq<char>) -> Seq<char>
    decreases s.len(),
{
    if s.len() < 2 {
        s
    } else if s[s.len() - 2] == ':' && s[s.len() - 1] == ':' {
        Seq::<char>::empty()
    } else {
        last_segment(s.drop_last()).push(s.last())
    }
}

/// What comes before the first `<` in `s` (`s.split('<').next()`).
pub open spec fn before_lt(s: Seq<char>) -> Seq<char> {
    split_by(s, Separator::Is('<'))[0]
}

pub open spec fn trim_colons_start(s: Seq<char>) -> Seq<char>
    decreases s.len(),
{
    if s.len() > 0 && s[0] == ':' {
        trim_colons_start(s.drop_first())
    } else {
        s
    }
}

pub open spec fn trim_colons_end(s: Seq<char>) -> Seq<char>
    decreases s.len(),
{
    if s.len() > 0 && s.last() == ':' {
        trim_colons_end(s.drop_last())
    } else {
        s
    }
}

/// `s` without leading and trailing colons (`s.trim_matches(':')`).
pub open spec fn trim_colons(s: Seq<char>) -> Seq<char> {
    trim_colons_end(trim_colons_start(s))
}

/// The regions of `text` enclosed in a pair of backticks: the odd-numbered
/// pieces between backticks, except a last one that no backtick closes.
pub open spec fn backtick_regions(text: Seq<char>) -> Seq<Seq<char>> {
    let pieces = split_by(text, Separator::Is('`'));
    Seq::new(((pieces.len() - 1) / 2) as nat, |k: int| pieces[2 * k + 1])
}

/// The non-empty pieces of `s` in `xs`.
pub open spec fn keep_nonempty(xs: Seq<Seq<char>>) -> Seq<Seq<char>>
    decreases xs.len(),
{
    if xs.len() == 0 {
        xs
    } else if xs.last().len() > 0 {
        keep_nonempty(xs.drop_last()).push(xs.last())
    } else {
        keep_nonempty(xs.drop_last())
    }
}

/// The identifier paths in `s`: its maximal runs of path characters.
pub open spec fn paths_in(s: Seq<char>) -> Seq<Seq<char>> {
    keep_nonempty(split_by(s, Separator::NonPathChar))
}

/// The final `::` segment of `path`, with generic arguments cut off.
pub open spec fn path_base(path: Seq<char>) -> Seq<char> {
    before_lt(last_segment(path))
}

/// The type name that `path` names, when it looks like one: its base with
/// colons trimmed, starting with an upper-case ASCII letter.
pub open spec fn type_name_of(path: Seq<char>) -> Option<Seq<char>> {
    let cleaned = trim_colons(path_base(path));
    if cleaned.len() > 0 && is_ascii_upper(cleaned[0]) {
        Some(cleaned)
    } else {
        None
    }
}

/// The type names of `paths`, in order.
pub open spec fn type_names_of(paths: Seq<Seq<char>>) -> Seq<Seq<char>>
    decreases paths.len(),
{
    if paths.len() == 0 {
        Seq::empty()
    } else {
        match type_name_of(paths.last()) {
            Some(n) => type_names_of(paths.drop_last()).push(n),
            None => type_names_of(paths.drop_last()),
        }
    }
}

/// The type names in the backtick regions of `regions`, region by region.
pub open spec fn type_names_in_regions(regions: Seq<Seq<char>>) -> Seq<Seq<char>>
    decreases regions.len(),
{
    if regions.len() == 0 {
        Seq::empty()
    } else {
        type_names_in_regions(regions.drop_last()) + type_names_of(paths_in(regions.last()))
    }
}

/// Type-name candidates of a diagnostic text: every backtick region is cut
/// into identifier paths, and each path that names a type contributes its
/// name.
pub open spec fn item_names_in(text: Seq<char>) -> Seq<Seq<char>> {
    type_names_in_regions(backtick_regions(text))
}

/// Some backtick region of `text` holds a path whose base, colons trimmed,
/// is `name`. The colon of a trait bound `Type: Trait` thus does not stick
/// to the type's name.
pub open spec fn named_in_backticks(name: Seq<char>, text: Seq<char>) -> bool {
    exists|k: int, j: int|
        0 <= k < backtick_regions(text).len() && 0 <= j < paths_in(backtick_regions(text)[k]).len()
            && #[trigger] trim_colons(path_base(paths_in(backtick_regions(text)[k])[j])) == name
}

pub open spec fn derive_open() -> Seq<char> {
    seq!['d', 'e', 'r', 'i', 'v', 'e', '(']
}

/// Some comma-separated element of `list`, trimmed, equals `name`.
pub open spec fn list_has(list: Seq<char>, name: Seq<char>) -> bool {
    exists|k: int|
        0 <= k < split_by(list, Separator::Is(',')).len() && trim_white(
            #[trigger] split_by(list, Separator::Is(','))[k],
        ) == name
}

/// `name` is an element of some `derive(...)` list in `text`: the text
/// between a `derive(` and the first `)` after it.
pub open spec fn in_derive_list(name: Seq<char>, text: Seq<char>) -> bool
    decreases text.len(),
{
    match find_seq(text, derive_open()) {
        None => false,
        Some(i) => {
            let rest = text.skip(i + 7);
            match find_seq(rest, seq![')']) {
                None => false,
                Some(c) => {
                    proof {
                        lemma_find_seq(text, derive_open());
                        lemma_find_seq(rest, seq![')']);
                    }
                    list_has(rest.take(c), name) || in_derive_list(name, rest.skip(c + 1))
                },
            }
        },
    }
}

/// `derive` (by its last `::` segment) is mentioned in `text`, either as a
/// path base in backticks or as an element of a `derive(...)` list.
pub open spec fn derive_mentioned(derive: Seq<char>, text: Seq<char>) -> bool {
    named_in_backticks(last_segment(derive), text) || in_derive_list(last_segment(derive), text)
}

/// Index in `s` where [`last_segment`] starts.
fn last_segment_start(s: &[char]) -> (r: usize)
    ensures
        r <= s@.len(),
        last_segment(s@) == s@.subrange(r as int, s@.len() as int),
{
    let n = s.len();
    let mut j = n;
    proof {
        assert(s@.subrange(n as int, n as int) =~= Seq::<char>::empty());
        assert(s@.take(n as int) == s@);
    }
    while j >= 2 && !(s[j - 2] == ':' && s[j - 1] == ':')
        invariant
            n == s@.len(),
            j <= n,
            last_segment(s@) == last_segment(s@.take(j as int)) + s@.subrange(j as int, n as int),
        decreases j,
    {
        proof {
            let t = s@.take(j as int);
            assert(t.drop_last() =~= s@.take(j as int - 1));
            assert(s@.subrange(j as int - 1, n as int) =~= seq![t.last()] + s@.subrange(j as int, n as int));
            assert(last_segment(t) == last_segment(t.drop_last()).push(t.last()));
            assert(last_segment(t.drop_last()).push(t.last()) + s@.subrange(j as int, n as int)
                =~= last_segment(t.drop_last()) + s@.subrange(j as int - 1, n as int));
        }
        j = j - 1;
    }
    if j >= 2 {
        proof {
            assert(last_segment(s@.take(j as int)) == Seq::<char>::empty());
            assert(Seq::<char>::empty() + s@.subrange(j as int, n as int) == s@.subrange(j as int, n as int));
        }
        j
    } else {
        proof {
            assert(last_segment(s@.take(j as int)) == s@.take(j as int));
            assert(s@.take(j as int) + s@.subrange(j as int, n as int) =~= s@.subrange(0, n as int));
        }
        0
    }
}

/// [`last_segment`] of `s`.
pub fn last_segment_of(s: &[char]) -> (r: Vec<char>)
    ensures
        r@ == last_segment(s@),
{
    let k = last_segment_start(s);
    slice_chars(s, k, s.len())
}

/// [`trim_colons`] of `s`.
pub fn trim_colons_of(s: &[char]) -> (r: Vec<char>)
    ensures
        r@ == trim_colons(s@),
{
    let n = s.len();
    let mut a: usize = 0;
    assert(s@.subrange(0, n as int) == s@);
    while a < n && s[a] == ':'
        invariant
            n == s@.len(),
            a <= n,
            trim_colons_start(s@) == trim_colons_start(s@.subrange(a as int, n as int)),
        decreases n - a,
    {
        proof {
            assert(s@.subrange(a as int, n as int).drop_first() =~= s@.subrange(a as int + 1, n as int));
        }
        a = a + 1;
    }
    let mut b: usize = n;
    assert(trim_colons_start(s@) == s@.subrange(a as int, b as int));
    while b > a && s[b - 1] == ':'
        invariant
            n == s@.len(),
            a <= b <= n,
            trim_colons(s@) == trim_colons_end(s@.subrange(a as int, b as int)),
        decreases b,
    {
        proof {
            assert(s@.subrange(a as int, b as int).drop_last() =~= s@.subrange(a as int, b as int - 1));
        }
        b = b - 1;
    }
    slice_chars(s, a, b)
}

/// The regions of `text` enclosed in backticks ([`backtick_regions`]).
pub fn backtick_fragments(text: &[char]) -> (r: Vec<Vec<char>>)
    ensures
        views(r@) == backtick_regions(text@),
{
    let pieces = split(text, Separator::Is('`'));
    proof {
        lemma_split_by_nonempty(text@, Separator::Is('`'));
    }
    let ghost pv = views(pieces@);
    assert(pv.len() == pieces@.len());
    let mut r: Vec<Vec<char>> = Vec::new();
    let mut k: usize = 1;
    while k < pieces.len() - 1
        invariant
            pv == views(pieces@),
            pv == split_by(text@, Separator::Is('`')),
            pieces@.len() >= 1,
            k % 2 == 1,
            k <= pieces@.len(),
            r@.len() == (k - 1) / 2,
            forall|i: int| 0 <= i < r@.len() ==> #[trigger] r@[i]@ == pv[2 * i + 1],
        decreases pieces@.len() - k,
    {
        let piece = slice_chars(pieces[k].as_slice(), 0, pieces[k].len());
        proof {
            assert(pieces[k as int]@.subrange(0, pieces[k as int]@.len() as int) == pieces[k as int]@);
        }
        r.push(piece);
        k = k + 2;
    }
    proof {
        assert(views(r@) =~= backtick_regions(text@));
    }
    r
}

/// The identifier paths of `s` ([`paths_in`]).
pub fn split_paths(s: &[char]) -> (r: Vec<Vec<char>>)
    ensures
        views(r@) == paths_in(s@),
{
    let pieces = split(s, Separator::NonPathChar);
    let ghost pv = views(pieces@);
    let mut r: Vec<Vec<char>> = Vec::new();
    let mut k: usize = 0;
    while k < pieces.len()
        invariant
            pv == views(pieces@),
            pv == split_by(s@, Separator::NonPathChar),
            k <= pieces@.len(),
            views(r@) == keep_nonempty(pv.take(k as int)),
        decreases pieces@.len() - k,
    {
        proof {
            assert(pv.take(k as int + 1).drop_last() =~= pv.take(k as int));
            lemma_views_push(r@, pieces[k as int]);
        }
        if pieces[k].len() > 0 {
            let piece = slice_chars(pieces[k].as_slice(), 0, pieces[k].len());
            proof {
                assert(pieces[k as int]@.subrange(0, pieces[k as int]@.len() as int) == pieces[k as int]@);
                lemma_views_push(r@, piece);
            }
            r.push(piece);
        }
        k = k + 1;
    }
    proof {
        assert(pv.take(pieces@.len() as int) == pv);
    }
    r
}

/// [`path_base`] of `path`.
pub fn path_base_of(path: &[char]) -> (r: Vec<char>)
    ensures
        r@ == path_base(path@),
{
    let last = last_segment_of(path);
    let parts = split(last.as_slice(), Separator::Is('<'));
    proof {
        lemma_split_by_nonempty(last@, Separator::Is('<'));
    }
    slice_chars(parts[0].as_slice(), 0, parts[0].len())
}

/// [`type_name_of`] of `path`.
pub fn type_name_from_path(path: &[char]) -> (r: Option<Vec<char>>)
    ensures
        match type_name_of(path@) {
            Some(n) => r matches Some(v) && v@ == n,
            None => r is None,
        },
{
    let base = path_base_of(path);
    let cleaned = trim_colons_of(base.as_slice());
    if cleaned.len() > 0 && ascii_upper(cleaned[0]) {
        Some(cleaned)
    } else {
        None
    }
}

/// Type-name candidates in `text` ([`item_names_in`]).
pub fn extract_item_names_in_text(text: &str) -> (r: Vec<String>)
    ensures
        r@.map_values(|s: String| s@) == item_names_in(text@),
{
    let chars = chars_of(text);
    let regions = backtick_fragments(chars.as_slice());
    let ghost rv = views(regions@);
    let mut result: Vec<String> = Vec::new();
    let mut k: usize = 0;
    while k < regions.len()
        invariant
            rv == views(regions@),
            rv == backtick_regions(text@),
            k <= regions@.len(),
            result@.map_values(|s: String| s@) == type_names_in_regions(rv.take(k as int)),
        decreases regions@.len() - k,
    {
        let paths = split_paths(regions[k].as_slice());
        let ghost pv = views(paths@);
        let ghost before = result@.map_values(|s: String| s@);
        let mut j: usize = 0;
        while j < paths.len()
            invariant
                pv == views(paths@),
                pv == paths_in(rv[k as int]),
                j <= paths@.len(),
                result@.map_values(|s: String| s@) == before + type_names_of(pv.take(j as int)),
            decreases paths@.len() - j,
        {
            proof {
                assert(pv.take(j as int + 1).drop_last() =~= pv.take(j as int));
            }
            let name = type_name_from_path(paths[j].as_slice());
            let ghost prev = result@;
            match name {
                Some(n) => {
                    let s = string_of(n.as_slice());
                    result.push(s);
                    proof {
                        assert(result@.map_values(|s: String| s@) =~= prev.map_values(
                            |s: String| s@,
                        ).push(n@));
                        assert(before + type_names_of(pv.take(j as int)).push(n@) =~= (before
                            + type_names_of(pv.take(j as int))).push(n@));
                    }
                },
                None => {},
            }
            j = j + 1;
        }
        proof {
            assert(pv.take(paths@.len() as int) == pv);
            assert(rv.take(k as int + 1).drop_last() =~= rv.take(k as int));
            assert(rv.take(k as int + 1).last() == rv[k as int]);
        }
        k = k + 1;
    }
    proof {
        assert(rv.take(regions@.len() as int) == rv);
    }
    result
}

/// Some backtick region of `text` holds a path whose base, colons
/// trimmed, is `name` ([`named_in_backticks`]).
pub fn mentioned_in_backticks(name: &[char], text: &[char]) -> (r: bool)
    ensures
        r == named_in_backticks(name@, text@),
{
    let regions = backtick_fragments(text);
    let ghost rv = views(regions@);
    let mut k: usize = 0;
    while k < regions.len()
        invariant
            rv == views(regions@),
            rv == backtick_regions(text@),
            k <= regions@.len(),
            forall|kk: int, j: int|
                0 <= kk < k && 0 <= j < paths_in(rv[kk]).len() ==> #[trigger] trim_colons(path_base(
                    paths_in(rv[kk])[j],
                )) != name@,
        decreases regions@.len() - k,
    {
        let paths = split_paths(regions[k].as_slice());
        let ghost pv = views(paths@);
        let mut j: usize = 0;
        while j < paths.len()
            invariant
                pv == views(paths@),
                k < rv.len(),
                rv == backtick_regions(text@),
                pv == paths_in(rv[k as int]),
                j <= paths@.len(),
                forall|jj: int| 0 <= jj < j ==> #[trigger] trim_colons(path_base(pv[jj])) != name@,
                forall|kk: int, j: int|
                    0 <= kk < k && 0 <= j < paths_in(rv[kk]).len() ==> #[trigger] trim_colons(path_base(
                        paths_in(rv[kk])[j],
                    )) != name@,
            decreases paths@.len() - j,
        {
            let raw = path_base_of(paths[j].as_slice());
            let base = trim_colons_of(raw.as_slice());
            if same_chars(base.as_slice(), name) {
                proof {
                    assert(pv[j as int] == paths@[j as int]@);
                    assert(trim_colons(path_base(paths_in(backtick_regions(text@)[k as int])[j as int]))
                        == name@);
                }
                return true;
            }
            j = j + 1;
        }
        k = k + 1;
    }
    false
}

/// Some trimmed comma-separated element of `list` equals `name`.
fn list_contains(list: &[char], name: &[char]) -> (r: bool)
    ensures
        r == list_has(list@, name@),
{
    let items = split(list, Separator::Is(','));
    let ghost iv = views(items@);
    let mut k: usize = 0;
    while k < items.len()
        invariant
            iv == views(items@),
            iv == split_by(list@, Separator::Is(',')),
            k <= items@.len(),
            forall|kk: int| 0 <= kk < k ==> trim_white(#[trigger] iv[kk]) != name@,
        decreases items@.len() - k,
    {
        let (a, b) = trim_white_range(items[k].as_slice());
        let trimmed = slice_chars(items[k].as_slice(), a, b);
        if same_chars(trimmed.as_slice(), name) {
            proof {
                assert(trim_white(split_by(list@, Separator::Is(','))[k as int]) == name@);
            }
            return true;
        }
        k = k + 1;
    }
    false
}

/// `name` is an element of some `derive(...)` list in `text`.
pub fn mentioned_in_derive_list(name: &[char], text: &[char]) -> (r: bool)
    ensures
        r == in_derive_list(name@, text@),
{
    let open = vec!['d', 'e', 'r', 'i', 'v', 'e', '('];
    let close = vec![')'];
    proof {
        assert(open@ =~= derive_open());
        assert(close@ =~= seq![')']);
    }
    let n = text.len();
    let mut pos: usize = 0;
    proof {
        assert(text@.subrange(0, n as int) == text@);
    }
    loop
        invariant
            n == text@.len(),
            pos <= n,
            open@ == derive_open(),
            close@ == seq![')'],
            in_derive_list(name@, text@) == in_derive_list(
                name@,
                text@.subrange(pos as int, n as int),
            ),
        decreases n - pos,
    {
        let ghost t = text@.subrange(pos as int, n as int);
        let found = find_from(text, pos, open.as_slice());
        match found {
            None => {
                return false;
            },
            Some(i) => {
                let start = i + 7;
                proof {
                    lemma_find_seq(t, derive_open());
                    assert(t.skip(i - pos + 7) =~= text@.subrange(start as int, n as int));
                }
                let found_close = find_from(text, start, close.as_slice());
                match found_close {
                    None => {
                        return false;
                    },
                    Some(c) => {
                        let ghost rest = t.skip(i - pos + 7);
                        proof {
                            lemma_find_seq(rest, seq![')']);
                            assert(rest.take(c - start) =~= text@.subrange(start as int, c as int));
                            assert(rest.skip(c - start + 1) =~= text@.subrange(c + 1, n as int));
                        }
                        let list = slice_chars(text, start, c);
                        if list_contains(list.as_slice(), name) {
                            return true;
                        }
                        pos = c + 1;
                    },
                }
            },
        }
    }
}

/// `derive` is mentioned in `text` ([`derive_mentioned`]).
pub fn derive_mentioned_in(derive: &str, text: &str) -> (r: bool)
    ensures
        r == derive_mentioned(derive@, text@),
{
    let d = chars_of(derive);
    let t = chars_of(text);
    let name = last_segment_of(d.as_slice());
    mentioned_in_backticks(name.as_slice(), t.as_slice()) || mentioned_in_derive_list(
        name.as_slice(),
        t.as_slice(),
    )
}

// ---------------------------------------------------------------------------
// Diagnostics
// ---------------------------------------------------------------------------

/// A span of a compiler diagnostic.
pub struct DiagnosticSpan {
    pub file_name: String,
    pub byte_start: u32,
    pub line_start: usize,
    pub line_end: usize,
    pub is_primary: bool,
    pub label: Option<String>,
    pub suggested_replacement: Option<String>,
}

/// A note, help or other child message of a compiler diagnostic.
pub struct DiagnosticChild {
    pub message: String,
    pub spans: Vec<DiagnosticSpan>,
}

/// A compiler diagnostic as `cargo check --message-format=json` reports it.
pub struct CompilerDiagnostic {
    pub message: String,
    /// The diagnostic is an error (not a warning, note or help).
    pub is_error: bool,
    pub spans: Vec<DiagnosticSpan>,
    pub children: Vec<DiagnosticChild>,
}

pub struct SpanView {
    pub file_name: Seq<char>,
    pub byte_start: u32,
    pub line_start: usize,
    pub line_end: usize,
    pub is_primary: bool,
    pub label: Option<Seq<char>>,
    pub suggested_replacement: Option<Seq<char>>,
}

pub struct ChildView {
    pub message: Seq<char>,
    pub spans: Seq<SpanView>,
}

pub struct DiagnosticView {
    pub message: Seq<char>,
    pub is_error: bool,
    pub spans: Seq<SpanView>,
    pub children: Seq<ChildView>,
}

pub open spec fn opt_str(o: Option<String>) -> Option<Seq<char>> {
    match o {
        Some(s) => Some(s@),
        None => None,
    }
}

impl View for DiagnosticSpan {
    type V = SpanView;

    open spec fn view(&self) -> SpanView {
        SpanView {
            file_name: self.file_name@,
            byte_start: self.byte_start,
            line_start: self.line_start,
            line_end: self.line_end,
            is_primary: self.is_primary,
            label: opt_str(self.label),
            suggested_replacement: opt_str(self.suggested_replacement),
        }
    }
}

pub open spec fn span_views(s: Seq<DiagnosticSpan>) -> Seq<SpanView> {
    s.map_values(|x: DiagnosticSpan| x@)
}

impl View for DiagnosticChild {
    type V = ChildView;

    open spec fn view(&self) -> ChildView {
        ChildView { message: self.message@, spans: span_views(self.spans@) }
    }
}

pub open spec fn child_views(s: Seq<DiagnosticChild>) -> Seq<ChildView> {
    s.map_values(|x: DiagnosticChild| x@)
}

impl View for CompilerDiagnostic {
    type V = DiagnosticView;

    open spec fn view(&self) -> DiagnosticView {
        DiagnosticView {
            message: self.message@,
            is_error: self.is_error,
            spans: span_views(self.spans@),
            children: child_views(self.children@),
        }
    }
}

/// A line break followed by the text, when there is one.
pub open spec fn on_new_line(o: Option<Seq<char>>) -> Seq<char> {
    match o {
        Some(t) => seq!['\n'] + t,
        None => Seq::empty(),
    }
}

/// The labels of `spans`, each on a line of its own.
pub open spec fn labels_text(spans: Seq<SpanView>) -> Seq<char>
    decreases spans.len(),
{
    if spans.len() == 0 {
        Seq::empty()
    } else {
        labels_text(spans.drop_last()) + on_new_line(spans.last().label)
    }
}

/// The labels and suggested replacements of `spans`, each on a line of its
/// own.
pub open spec fn child_spans_text(spans: Seq<SpanView>) -> Seq<char>
    decreases spans.len(),
{
    if spans.len() == 0 {
        Seq::empty()
    } else {
        child_spans_text(spans.drop_last()) + on_new_line(spans.last().label) + on_new_line(
            spans.last().suggested_replacement,
        )
    }
}

/// Each child's message and span texts, each on a line of its own.
pub open spec fn children_text(children: Seq<ChildView>) -> Seq<char>
    decreases children.len(),
{
    if children.len() == 0 {
        Seq::empty()
    } else {
        children_text(children.drop_last()) + seq!['\n'] + children.last().message
            + child_spans_text(children.last().spans)
    }
}

/// The diagnostic as one text: its message, its span labels, then every
/// child's message, span labels and suggested replacements.
pub open spec fn flattened(d: DiagnosticView) -> Seq<char> {
    d.message + labels_text(d.spans) + children_text(d.children)
}

fn push_on_new_line(out: &mut Vec<char>, o: &Option<String>)
    ensures
        final(out)@ == old(out)@ + on_new_line(opt_str(*o)),
{
    match o {
        Some(t) => {
            out.push('\n');
            let c = chars_of(t.as_str());
            crate::text::push_all(out, c.as_slice());
            assert(final(out)@ =~= old(out)@ + (seq!['\n'] + t@));
        },
        None => {
            assert(old(out)@ + Seq::<char>::empty() =~= old(out)@);
        },
    }
}

/// [`flattened`] of `d`.
fn flatten(d: &CompilerDiagnostic) -> (r: String)
    ensures
        r@ == flattened(d@),
{
    let mut out = chars_of(d.message.as_str());
    let ghost sv = span_views(d.spans@);
    let mut i: usize = 0;
    assert(sv.take(0) =~= Seq::<SpanView>::empty());
    while i < d.spans.len()
        invariant
            sv == span_views(d.spans@),
            i <= d.spans@.len(),
            out@ == d@.message + labels_text(sv.take(i as int)),
        decreases d.spans@.len() - i,
    {
        proof {
            assert(sv.take(i as int + 1).drop_last() =~= sv.take(i as int));
        }
        push_on_new_line(&mut out, &d.spans[i].label);
        i = i + 1;
    }
    proof {
        assert(sv.take(sv.len() as int) == sv);
    }
    let ghost cv = child_views(d.children@);
    let ghost head = out@;
    let mut k: usize = 0;
    assert(cv.take(0) =~= Seq::<ChildView>::empty());
    while k < d.children.len()
        invariant
            cv == child_views(d.children@),
            k <= d.children@.len(),
            out@ == head + children_text(cv.take(k as int)),
        decreases d.children@.len() - k,
    {
        let child = &d.children[k];
        let ghost csv = span_views(child.spans@);
        let ghost before = out@;
        out.push('\n');
        let m = chars_of(child.message.as_str());
        crate::text::push_all(&mut out, m.as_slice());
        let mut j: usize = 0;
        assert(csv.take(0) =~= Seq::<SpanView>::empty());
        while j < child.spans.len()
            invariant
                csv == span_views(child.spans@),
                j <= child.spans@.len(),
                out@ == before + seq!['\n'] + child.message@ + child_spans_text(csv.take(j as int)),
            decreases child.spans@.len() - j,
        {
            proof {
                assert(csv.take(j as int + 1).drop_last() =~= csv.take(j as int));
            }
            push_on_new_line(&mut out, &child.spans[j].label);
            push_on_new_line(&mut out, &child.spans[j].suggested_replacement);
            proof {
                assert(out@ =~= before + seq!['\n'] + child.message@ + child_spans_text(csv.take(j as int + 1)));
            }
            j = j + 1;
        }
        proof {
            assert(csv.take(csv.len() as int) == csv);
            assert(cv.take(k as int + 1).drop_last() =~= cv.take(k as int));
            assert(cv.take(k as int + 1).last() == child@);
            assert(out@ =~= head + children_text(cv.take(k as int + 1)));
        }
        k = k + 1;
    }
    proof {
        assert(cv.take(cv.len() as int) == cv);
        assert(out@ =~= flattened(d@));
    }
    string_of(out.as_slice())
}

/// Index of the first primary span of `spans`.
pub open spec fn first_primary(spans: Seq<SpanView>) -> Option<int>
    decreases spans.len(),
{
    if spans.len() == 0 {
        None
    } else {
        match first_primary(spans.drop_last()) {
            Some(i) => Some(i),
            None => if spans.last().is_primary {
                Some(spans.len() - 1)
            } else {
                None
            },
        }
    }
}

/// The span a diagnostic points at: its first primary span, or else its
/// first span.
pub open spec fn location_index(spans: Seq<SpanView>) -> Option<int> {
    match first_primary(spans) {
        Some(i) => Some(i),
        None => if spans.len() > 0 {
            Some(0)
        } else {
            None
        },
    }
}

pub proof fn lemma_first_primary(spans: Seq<SpanView>, k: int)
    requires
        0 <= k <= spans.len(),
    ensures
        first_primary(spans.take(k)) matches Some(i) ==> first_primary(spans) == Some(i),
        first_primary(spans) matches Some(i) ==> 0 <= i < spans.len() && spans[i].is_primary,
    decreases spans.len(),
{
    if spans.len() > 0 {
        if k == spans.len() {
            assert(spans.take(k) =~= spans);
            lemma_first_primary(spans.drop_last(), 0);
        } else {
            assert(spans.drop_last().take(k) =~= spans.take(k));
            lemma_first_primary(spans.drop_last(), k);
        }
    }
}

/// Index of the span a diagnostic points at ([`location_index`]).
fn find_location(spans: &Vec<DiagnosticSpan>) -> (r: Option<usize>)
    ensures
        match r {
            Some(i) => location_index(span_views(spans@)) == Some(i as int) && i < spans@.len(),
            None => location_index(span_views(spans@)) is None,
        },
{
    let ghost sv = span_views(spans@);
    let mut i: usize = 0;
    assert(sv.take(0) =~= Seq::<SpanView>::empty());
    while i < spans.len()
        invariant
            sv == span_views(spans@),
            i <= spans@.len(),
            first_primary(sv.take(i as int)) is None,
        decreases spans@.len() - i,
    {
        proof {
            assert(sv.take(i as int + 1).drop_last() =~= sv.take(i as int));
        }
        if spans[i].is_primary {
            proof {
                lemma_first_primary(sv, i as int + 1);
            }
            return Some(i);
        }
        i = i + 1;
    }
    proof {
        assert(sv.take(sv.len() as int) == sv);
    }
    if spans.len() > 0 {
        assert(location_index(sv) == Some(0int));
        Some(0)
    } else {
        None
    }
}

/// The source location a diagnostic points at: file and line range.
pub struct Location<'a> {
    pub file: &'a str,
    pub line_start: usize,
    pub line_end: usize,
}

/// Some span of the diagnostic, or of one of its children, is in the file
/// `path`.
pub open spec fn references_path(d: DiagnosticView, path: Seq<char>) -> bool {
    ||| exists|i: int| 0 <= i < d.spans.len() && same_path(#[trigger] d.spans[i].file_name, path)
    ||| exists|c: int, i: int|
        0 <= c < d.children.len() && 0 <= i < d.children[c].spans.len() && same_path(
            #[trigger] d.children[c].spans[i].file_name,
            path,
        )
}

/// A compiler error diagnostic, with its text flattened once so that name
/// and derive matching need not walk it again.
pub struct Diagnostic {
    inner: CompilerDiagnostic,
    text: String,
}

impl Diagnostic {
    /// What the compiler reported.
    pub closed spec fn report(self) -> DiagnosticView {
        self.inner@
    }

    /// The flattened text ([`flattened`]).
    pub open spec fn text(self) -> Seq<char> {
        flattened(self.report())
    }

    #[verifier::type_invariant]
    spec fn inv(self) -> bool {
        self.text@ == flattened(self.inner@)
    }

    pub fn new(inner: CompilerDiagnostic) -> (r: Self)
        ensures
            r.report() == inner@,
    {
        let text = flatten(&inner);
        Diagnostic { inner, text }
    }

    pub fn message(&self) -> (r: &str)
        ensures
            r@ == self.report().message,
    {
        self.inner.message.as_str()
    }

    /// The location of the first primary span, or else of the first span.
    pub fn location(&self) -> (r: Option<Location<'_>>)
        ensures
            match location_index(self.report().spans) {
                Some(i) => r matches Some(l) && l.file@ == self.report().spans[i].file_name
                    && l.line_start == self.report().spans[i].line_start && l.line_end
                    == self.report().spans[i].line_end,
                None => r is None,
            },
    {
        match find_location(&self.inner.spans) {
            Some(i) => {
                let s = &self.inner.spans[i];
                proof {
                    assert(self.report().spans[i as int] == self.inner.spans@[i as int]@);
                }
                Some(Location { file: s.file_name.as_str(), line_start: s.line_start, line_end: s.line_end })
            },
            None => None,
        }
    }

    /// Some span of the diagnostic, or of one of its children, is in the
    /// file `path`.
    pub fn references_file(&self, path: &str) -> (r: bool)
        ensures
            r == references_path(self.report(), path@),
            r == ((exists|i: int| 0 <= i < self.report().spans.len() && same_path(#[trigger] self.report().spans[i].file_name, path@))
                || (exists|c: int, i: int| 0 <= c < self.report().children.len() && 0 <= i < self.report().children[c].spans.len()
                    && same_path(#[trigger] self.report().children[c].spans[i].file_name, path@))),
    {
        let ghost d = self.report();
        let mut i: usize = 0;
        while i < self.inner.spans.len()
            invariant
                d == self.inner@,
                i <= self.inner.spans@.len(),
                forall|j: int| 0 <= j < i ==> !same_path(#[trigger] d.spans[j].file_name, path@),
            decreases self.inner.spans@.len() - i,
        {
            if paths_equal(self.inner.spans[i].file_name.as_str(), path) {
                proof {
                    assert(d.spans[i as int].file_name == self.inner.spans@[i as int].file_name@);
                }
                return true;
            }
            i = i + 1;
        }
        let mut c: usize = 0;
        while c < self.inner.children.len()
            invariant
                d == self.inner@,
                c <= self.inner.children@.len(),
                forall|j: int| 0 <= j < self.inner.spans@.len() ==> !same_path(#[trigger] d.spans[j].file_name, path@),
                forall|cc: int, j: int| 0 <= cc < c && 0 <= j < d.children[cc].spans.len() ==> !same_path(#[trigger] d.children[cc].spans[j].file_name, path@),
            decreases self.inner.children@.len() - c,
        {
            let child = &self.inner.children[c];
            let mut j: usize = 0;
            while j < child.spans.len()
                invariant
                    d == self.inner@,
                    c < self.inner.children@.len(),
                    *child == self.inner.children@[c as int],
                    j <= child.spans@.len(),
                    forall|jj: int| 0 <= jj < j ==> !same_path(#[trigger] d.children[c as int].spans[jj].file_name, path@),
                decreases child.spans@.len() - j,
            {
                if paths_equal(child.spans[j].file_name.as_str(), path) {
                    proof {
                        assert(d.children[c as int].spans[j as int].file_name == child.spans@[j as int].file_name@);
                    }
                    return true;
                }
                j = j + 1;
            }
            c = c + 1;
        }
        false
    }

    /// Type-name candidates of the diagnostic ([`item_names_in`] of its
    /// flattened text).
    pub fn item_names(&self) -> (r: Vec<String>)
        ensures
            r@.map_values(|s: String| s@) == item_names_in(self.text()),
    {
        proof {
            use_type_invariant(self);
        }
        extract_item_names_in_text(self.text.as_str())
    }

    /// The first derive of `derives` that the diagnostic mentions
    /// ([`derive_mentioned`]).
    pub fn references_derive<'a>(&self, derives: &'a [String]) -> (r: Option<&'a str>)
        ensures
            match r {
                Some(d) => exists|i: int| 0 <= i < derives@.len() && d@ == derives@[i]@
                    && derive_mentioned(derives@[i]@, self.text())
                    && forall|j: int| 0 <= j < i ==> !derive_mentioned(#[trigger] derives@[j]@, self.text()),
                None => forall|j: int| 0 <= j < derives@.len() ==> !derive_mentioned(#[trigger] derives@[j]@, self.text()),
            },
    {
        proof {
            use_type_invariant(self);
        }
        let mut i: usize = 0;
        while i < derives.len()
            invariant
                i <= derives@.len(),
                self.text@ == self.text(),
                forall|j: int| 0 <= j < i ==> !derive_mentioned(#[trigger] derives@[j]@, self.text()),
            decreases derives@.len() - i,
        {
            if derive_mentioned_in(derives[i].as_str(), self.text.as_str()) {
                return Some(derives[i].as_str());
            }
            i = i + 1;
        }
        None
    }
}

// ---------------------------------------------------------------------------
// Collecting the errors of a `cargo check` run
// ---------------------------------------------------------------------------

/// What `Path::strip_prefix` leaves of `path` once `root` is taken off its
/// front, component by component; `None` when `root` is not a prefix of it.
pub uninterp spec fn stripped_path(path: Seq<char>, root: Seq<char>) -> Option<Seq<char>>;

/// `Path::strip_prefix(root)` of `path`, the rest written back as text
/// (`to_string_lossy`, lossless for a path that came from a `str`).
#[verifier::external_body]
pub(crate) fn strip_root(path: &str, root: &str) -> (r: Option<String>)
    ensures
        match r {
            Some(s) => stripped_path(path@, root@) == Some(s@),
            None => stripped_path(path@, root@) is None,
        },
{
    std::path::Path::new(path).strip_prefix(root).ok().map(|p| p.to_string_lossy().into_owned())
}

/// `file` relative to `root` when it lies under `root`, else unchanged.
pub open spec fn relativized(file: Seq<char>, root: Seq<char>) -> Seq<char> {
    match stripped_path(file, root) {
        Some(rest) => rest,
        None => file,
    }
}

/// Makes `file_name` relative to `root` when it lies under it.
pub fn relativize(file_name: &mut String, root: &str)
    ensures
        final(file_name)@ == relativized(old(file_name)@, root@),
{
    match strip_root(file_name.as_str(), root) {
        Some(rest) => {
            *file_name = rest;
        },
        None => {},
    }
}

pub open spec fn normalized_span(s: SpanView, root: Seq<char>) -> SpanView {
    SpanView { file_name: relativized(s.file_name, root), ..s }
}

pub open spec fn normalized_spans(spans: Seq<SpanView>, root: Seq<char>) -> Seq<SpanView> {
    spans.map_values(|s: SpanView| normalized_span(s, root))
}

/// The diagnostic with every span's file, its children's too, made
/// relative to `root`.
pub open spec fn normalized(d: DiagnosticView, root: Seq<char>) -> DiagnosticView {
    DiagnosticView {
        spans: normalized_spans(d.spans, root),
        children: d.children.map_values(
            |c: ChildView| ChildView { spans: normalized_spans(c.spans, root), ..c },
        ),
        ..d
    }
}

fn normalize_spans(spans: &mut Vec<DiagnosticSpan>, root: &str)
    ensures
        span_views(final(spans)@) == normalized_spans(span_views(old(spans)@), root@),
{
    let ghost before = span_views(spans@);
    let n = spans.len();
    let mut i: usize = 0;
    while i < n
        invariant
            n == spans@.len(),
            before.len() == n,
            i <= n,
            forall|j: int| 0 <= j < i ==> (#[trigger] spans@[j])@ == normalized_span(before[j], root@),
            forall|j: int| i <= j < n ==> (#[trigger] spans@[j])@ == before[j],
        decreases n - i,
    {
        relativize(&mut spans[i].file_name, root);
        i = i + 1;
    }
    proof {
        assert(span_views(spans@) =~= normalized_spans(before, root@));
    }
}

/// Makes every span's file relative to `root` ([`normalized`]).
pub fn normalize_span_paths(diag: &mut CompilerDiagnostic, root: &str)
    ensures
        final(diag)@ == normalized(old(diag)@, root@),
{
    let ghost before = diag@;
    normalize_spans(&mut diag.spans, root);
    let n = diag.children.len();
    let mut c: usize = 0;
    while c < n
        invariant
            n == diag.children@.len(),
            before.children.len() == n,
            c <= n,
            diag.message@ == before.message,
            diag.is_error == before.is_error,
            span_views(diag.spans@) == normalized_spans(before.spans, root@),
            forall|j: int| 0 <= j < c ==> (#[trigger] diag.children@[j])@ == (ChildView { spans: normalized_spans(before.children[j].spans, root@), ..before.children[j] }),
            forall|j: int| c <= j < n ==> (#[trigger] diag.children@[j])@ == before.children[j],
        decreases n - c,
    {
        normalize_spans(&mut diag.children[c].spans, root);
        c = c + 1;
    }
    proof {
        assert(child_views(diag.children@) =~= before.children.map_values(
            |c: ChildView| ChildView { spans: normalized_spans(c.spans, root@), ..c },
        ));
    }
}

/// What two diagnostics must share to count as the same report: the
/// message and the file and byte offset of the span they point at.
pub open spec fn diag_key(d: DiagnosticView) -> (Seq<char>, Option<(Seq<char>, u32)>) {
    (
        d.message,
        match location_index(d.spans) {
            Some(i) => Some((d.spans[i].file_name, d.spans[i].byte_start)),
            None => None,
        },
    )
}

/// The error diagnostics of `ms`, in order, with span files made relative
/// to `root`, each kept only when no earlier kept one has the same
/// [`diag_key`] (`--all-targets` reports an error once per target).
pub open spec fn kept_errors(ms: Seq<DiagnosticView>, root: Seq<char>) -> Seq<DiagnosticView>
    decreases ms.len(),
{
    if ms.len() == 0 {
        Seq::empty()
    } else {
        let prev = kept_errors(ms.drop_last(), root);
        let d = normalized(ms.last(), root);
        if ms.last().is_error && !(exists|j: int| 0 <= j < prev.len() && #[trigger] diag_key(prev[j]) == diag_key(d)) {
            prev.push(d)
        } else {
            prev
        }
    }
}

fn key_of(d: &CompilerDiagnostic) -> (r: (String, Option<(String, u32)>))
    ensures
        (r.0@, match r.1 { Some((f, b)) => Some((f@, b)), None => None }) == diag_key(d@),
{
    let message = d.message.clone();
    match find_location(&d.spans) {
        Some(i) => {
            proof {
                assert(d@.spans[i as int] == d.spans@[i as int]@);
            }
            (message, Some((d.spans[i].file_name.clone(), d.spans[i].byte_start)))
        },
        None => (message, None),
    }
}

fn same_key(a: &(String, Option<(String, u32)>), b: &(String, Option<(String, u32)>)) -> (r: bool)
    ensures
        r == ((a.0@, match a.1 { Some((f, x)) => Some((f@, x)), None => None }) == (b.0@, match b.1 { Some((f, x)) => Some((f@, x)), None => None })),
{
    if a.0 != b.0 {
        return false;
    }
    match (&a.1, &b.1) {
        (Some((fa, xa)), Some((fb, xb))) => *fa == *fb && *xa == *xb,
        (None, None) => true,
        _ => false,
    }
}

pub open spec fn key_view(k: (String, Option<(String, u32)>)) -> (Seq<char>, Option<(Seq<char>, u32)>) {
    (k.0@, match k.1 { Some((f, b)) => Some((f@, b)), None => None })
}

pub open spec fn diag_views(ms: Seq<CompilerDiagnostic>) -> Seq<DiagnosticView> {
    ms.map_values(|m: CompilerDiagnostic| m@)
}

/// The diagnostics that the restore loop acts on ([`kept_errors`]).
pub fn collect_errors(messages: Vec<CompilerDiagnostic>, root: &str) -> (r: Vec<Diagnostic>)
    ensures
        r@.map_values(|d: Diagnostic| d.report()) == kept_errors(diag_views(messages@), root@),
{
    let ghost ms = diag_views(messages@);
    let mut rest = messages;
    let mut keys: Vec<(String, Option<(String, u32)>)> = Vec::new();
    let mut out: Vec<Diagnostic> = Vec::new();
    let ghost mut taken: int = 0;
    while rest.len() > 0
        invariant
            0 <= taken <= ms.len(),
            ms.len() == taken + rest@.len(),
            diag_views(rest@) == ms.skip(taken),
            out@.map_values(|d: Diagnostic| d.report()) == kept_errors(ms.take(taken), root@),
            keys@.len() == out@.len(),
            forall|j: int| 0 <= j < keys@.len() ==> key_view(#[trigger] keys@[j]) == diag_key(out@[j].report()),
        decreases rest@.len(),
    {
        let ghost rv = rest@;
        let mut m = rest.remove(0);
        proof {
            assert(diag_views(rv)[0] == rv[0]@);
            assert(ms.skip(taken)[0] == ms[taken]);
            assert(ms[taken] == m@);
            assert forall|i: int| 0 <= i < rest@.len() implies #[trigger] diag_views(rest@)[i] == ms.skip(taken + 1)[i] by {
                assert(rest@[i] == rv[i + 1]);
                assert(diag_views(rv)[i + 1] == ms.skip(taken)[i + 1]);
            }
            assert(diag_views(rest@) =~= ms.skip(taken + 1));
            assert(ms.take(taken + 1).drop_last() =~= ms.take(taken));
            assert(ms.take(taken + 1).last() == m@);
        }
        let ghost prev = out@.map_values(|d: Diagnostic| d.report());
        if m.is_error {
            let ghost original = m@;
            normalize_span_paths(&mut m, root);
            let key = key_of(&m);
            let mut seen = false;
            let mut j: usize = 0;
            while j < keys.len()
                invariant
                    j <= keys@.len(),
                    keys@.len() == prev.len(),
                    forall|q: int| 0 <= q < keys@.len() ==> key_view(#[trigger] keys@[q]) == diag_key(prev[q]),
                    seen == exists|q: int| 0 <= q < j && diag_key(#[trigger] prev[q]) == diag_key(m@),
                    key_view(key) == diag_key(m@),
                decreases keys@.len() - j,
            {
                if same_key(&keys[j], &key) {
                    seen = true;
                }
                proof {
                    assert(key_view(keys@[j as int]) == diag_key(prev[j as int]));
                }
                j = j + 1;
            }
            if !seen {
                let d = Diagnostic::new(m);
                out.push(d);
                keys.push(key);
                proof {
                    assert(out@.map_values(|d: Diagnostic| d.report()) =~= prev.push(normalized(original, root@)));
                }
            }
        }
        proof {
            taken = taken + 1;
        }
    }
    proof {
        assert(ms.take(taken) =~= ms);
    }
    out
}

// ---------------------------------------------------------------------------
// Reading the output of `cargo check`
// ---------------------------------------------------------------------------

/// The messages that `cargo_metadata::Message::parse_stream` reads, in
/// order, from the output of `cargo check --message-format=json`, each a
/// compiler message or `None` for any other kind of message; `None` as a
/// whole when a line of the output cannot be read.
pub uninterp spec fn cargo_messages_of(stdout: Seq<u8>) -> Option<Seq<Option<DiagnosticView>>>;

/// The views of optional diagnostics.
pub open spec fn opt_diag_views(v: Seq<Option<CompilerDiagnostic>>) -> Seq<Option<DiagnosticView>> {
    v.map_values(
        |o: Option<CompilerDiagnostic>|
            match o {
                Some(d) => Some(d@),
                None => None,
            },
    )
}

/// The compiler messages among `ms`, in order.
pub open spec fn compiler_messages(ms: Seq<Option<DiagnosticView>>) -> Seq<DiagnosticView>
    decreases ms.len(),
{
    if ms.len() == 0 {
        Seq::empty()
    } else {
        match ms.last() {
            Some(d) => compiler_messages(ms.drop_last()).push(d),
            None => compiler_messages(ms.drop_last()),
        }
    }
}

/// `Message::parse_stream` over the output: per message, for a compiler
/// message its message, whether its level is `error`, its spans and its
/// children's messages and spans, and `None` for other messages; the first
/// read error when a line cannot be read.
#[verifier::external_body]
fn parse_cargo_messages(stdout: &[u8]) -> (r: Result<Vec<Option<CompilerDiagnostic>>, std::io::Error>)
    ensures
        match r {
            Ok(v) => cargo_messages_of(stdout@) == Some(opt_diag_views(v@)),
            Err(_) => cargo_messages_of(stdout@) is None,
        },
{
    let mut out = Vec::new();
    for msg in Message::parse_stream(stdout) {
        out.push(match msg? {
            Message::CompilerMessage(m) => {
                let d = m.message;
                let conv = |ss: Vec<CargoSpan>| ss.into_iter().map(|s| DiagnosticSpan { file_name: s.file_name, byte_start: s.byte_start, line_start: s.line_start, line_end: s.line_end, is_primary: s.is_primary, label: s.label, suggested_replacement: s.suggested_replacement }).collect();
                Some(CompilerDiagnostic { message: d.message, is_error: d.level == DiagnosticLevel::Error, spans: conv(d.spans), children: d.children.into_iter().map(|c| DiagnosticChild { message: c.message, spans: conv(c.spans) }).collect() })
            },
            _ => None,
        });
    }
    Ok(out)
}

/// The compiler messages among `messages`, in order.
fn keep_compiler_messages(messages: Vec<Option<CompilerDiagnostic>>) -> (r: Vec<CompilerDiagnostic>)
    ensures
        diag_views(r@) == compiler_messages(opt_diag_views(messages@)),
{
    let ghost mv = opt_diag_views(messages@);
    let mut rest = messages;
    let mut out: Vec<CompilerDiagnostic> = Vec::new();
    let ghost mut taken: int = 0;
    assert(mv.take(0) =~= Seq::<Option<DiagnosticView>>::empty());
    assert(diag_views(out@) =~= Seq::<DiagnosticView>::empty());
    while rest.len() > 0
        invariant
            0 <= taken <= mv.len(),
            mv.len() == taken + rest@.len(),
            opt_diag_views(rest@) == mv.skip(taken),
            diag_views(out@) == compiler_messages(mv.take(taken)),
        decreases rest@.len(),
    {
        let ghost rv = rest@;
        let m = rest.remove(0);
        proof {
            assert(mv[taken] == opt_diag_views(rv)[0]);
            assert(rest@ =~= rv.skip(1));
            assert forall|q: int| 0 <= q < rest@.len() implies #[trigger] opt_diag_views(rest@)[q]
                == mv.skip(taken + 1)[q] by {
                assert(rest@[q] == rv[q + 1]);
                assert(opt_diag_views(rv)[q + 1] == mv.skip(taken)[q + 1]);
            }
            assert(opt_diag_views(rest@) =~= mv.skip(taken + 1));
            assert(mv.take(taken + 1).drop_last() =~= mv.take(taken));
            assert(mv.take(taken + 1).last() == mv[taken]);
        }
        match m {
            Some(d) => {
                let ghost prev = out@;
                out.push(d);
                proof {
                    assert(diag_views(out@) =~= diag_views(prev).push(d@));
                }
            },
            None => {},
        }
        proof {
            taken = taken + 1;
        }
    }
    proof {
        assert(mv.take(taken) =~= mv);
    }
    out
}

/// The diagnostics that the restore loop acts on, read from the output of
/// `cargo check --message-format=json` run in `root` ([`kept_errors`] of
/// its compiler messages); a failure to read a line of the output is
/// reported as such.
pub fn errors_from_output(stdout: &[u8], root: &str) -> (r: Result<Vec<Diagnostic>, ToolError>)
    ensures
        match cargo_messages_of(stdout@) {
            Some(ms) => r matches Ok(v) && v@.map_values(|d: Diagnostic| d.report()) == kept_errors(
                compiler_messages(ms),
                root@,
            ),
            None => r matches Err(ToolError::ParseCargoMessage { .. }),
        },
{
    match parse_cargo_messages(stdout) {
        Ok(messages) => Ok(collect_errors(keep_compiler_messages(messages), root)),
        Err(cause) => Err(ToolError::ParseCargoMessage { cause }),
    }
}


/// A path with no `:` in it is its own last segment.
proof fn lemma_last_segment_plain(s: Seq<char>)
    requires
        forall|i: int| 0 <= i < s.len() ==> #[trigger] s[i] != ':',
    ensures
        last_segment(s) == s,
    decreases s.len(),
{
    if s.len() >= 2 {
        let t = s.drop_last();
        assert forall|i: int| 0 <= i < t.len() implies #[trigger] t[i] != ':' by {
            assert(t[i] == s[i]);
        }
        lemma_last_segment_plain(t);
        assert(s[s.len() - 2] != ':');
        assert(t.push(s.last()) =~= s);
    }
}

/// Every element of a `derive(...)` list is mentioned as a derive, whatever
/// whitespace stands around it: in `derive(a, b)` (with any whitespace
/// `w1` after the comma and `w2` before the bracket) the name `b` is
/// mentioned, not only the list's first element.
pub proof fn law_derive_list_element_trimmed(a: Seq<char>, w1: Seq<char>, b: Seq<char>, w2: Seq<char>)
    requires
        forall|i: int| 0 <= i < a.len() ==> #[trigger] a[i] != ',' && a[i] != ')',
        forall|i: int| 0 <= i < w1.len() ==> is_white(#[trigger] w1[i]),
        forall|i: int| 0 <= i < w2.len() ==> is_white(#[trigger] w2[i]),
        b.len() > 0,
        !is_white(b[0]),
        !is_white(b.last()),
        forall|i: int| 0 <= i < b.len() ==> #[trigger] b[i] != ',' && b[i] != ')' && b[i] != ':',
    ensures
        in_derive_list(b, derive_open() + a + seq![','] + w1 + b + w2 + seq![')']),
        derive_mentioned(b, derive_open() + a + seq![','] + w1 + b + w2 + seq![')']),
{
    let text = derive_open() + a + seq![','] + w1 + b + w2 + seq![')'];
    let pre = a + seq![','];
    let y = w1 + b + w2;
    let l = pre + y;
    assert(text.take(7) =~= derive_open());
    assert(find_seq(text, derive_open()) == Some(0int));
    let rest = text.skip(7);
    assert(rest =~= l + seq![')']);
    // the list ends at the closing bracket, the first in `rest`
    assert forall|i: int| 0 <= i < l.len() implies #[trigger] l[i] != ')' by {
        if i < a.len() {
            assert(l[i] == a[i]);
        } else if i == a.len() {
            assert(l[i] == ',');
        } else if i < a.len() + 1 + w1.len() {
            assert(l[i] == w1[i - a.len() - 1]);
        } else if i < a.len() + 1 + w1.len() + b.len() {
            assert(l[i] == b[i - a.len() - 1 - w1.len()]);
        } else {
            assert(l[i] == w2[i - a.len() - 1 - w1.len() - b.len()]);
        }
    }
    lemma_find_seq(rest, seq![')']);
    assert(occurs(rest, l.len() as int, seq![')'])) by {
        assert(rest.subrange(l.len() as int, l.len() as int + 1) =~= seq![')']);
    }
    let c = find_seq(rest, seq![')'])->0;
    if c < l.len() {
        assert(rest.subrange(c, c + 1)[0] == rest[c]);
        assert(rest[c] == l[c]);
    }
    assert(c == l.len());
    assert(rest.take(c) =~= l);
    // the last comma-separated element is `b` with its whitespace
    assert forall|i: int| 0 <= i < y.len() implies !Separator::Is(',').separates(#[trigger] y[i]) by {
        if i < w1.len() {
            assert(y[i] == w1[i]);
        } else if i < w1.len() + b.len() {
            assert(y[i] == b[i - w1.len()]);
        } else {
            assert(y[i] == w2[i - w1.len() - b.len()]);
        }
    }
    lemma_split_by_last_piece(pre, y, Separator::Is(','));
    lemma_split_by_nonempty(pre, Separator::Is(','));
    lemma_trim_white_around(w1, b, w2);
    let parts = split_by(l, Separator::Is(','));
    assert(trim_white(parts[parts.len() - 1]) == b);
    assert(list_has(l, b));
    assert(in_derive_list(b, text));
    lemma_last_segment_plain(b);
}


/// The file and byte offset of the span a diagnostic is located at
/// ([`location_index`]), if it has a span.
pub open spec fn located(d: DiagnosticView) -> Option<(Seq<char>, u32)> {
    match location_index(d.spans) {
        Some(i) => Some((d.spans[i].file_name, d.spans[i].byte_start)),
        None => None,
    }
}

/// Collecting drops an error only as a repeat: each error of the output,
/// with its paths made relative, is kept, unless an error kept before it has
/// the same message and is located at the same file and byte. So two errors
/// with different messages are both kept, whatever their spans.
pub proof fn law_errors_dropped_only_as_repeats(ms: Seq<DiagnosticView>, root: Seq<char>, i: int)
    requires
        0 <= i < ms.len(),
        ms[i].is_error,
    ensures
        kept_errors(ms, root).contains(normalized(ms[i], root)) || exists|j: int|
            #![trigger kept_errors(ms, root)[j]]
            0 <= j < kept_errors(ms, root).len() && kept_errors(ms, root)[j].message == normalized(
                ms[i],
                root,
            ).message && located(kept_errors(ms, root)[j]) == located(normalized(ms[i], root)),
    decreases ms.len(),
{
    let prev = kept_errors(ms.drop_last(), root);
    let k = kept_errors(ms, root);
    let d = normalized(ms[i], root);
    assert(k == prev || k == prev.push(normalized(ms.last(), root)));
    assert forall|j: int| 0 <= j < prev.len() implies #[trigger] k[j] == prev[j] by {}
    if i == ms.len() - 1 {
        if exists|j: int| 0 <= j < prev.len() && #[trigger] diag_key(prev[j]) == diag_key(d) {
            let j = choose|j: int| 0 <= j < prev.len() && #[trigger] diag_key(prev[j]) == diag_key(d);
            assert(k[j] == prev[j]);
            assert(located(k[j]) == diag_key(k[j]).1);
            assert(located(d) == diag_key(d).1);
        } else {
            assert(k[prev.len() as int] == d);
        }
    } else {
        assert(ms.drop_last()[i] == ms[i]);
        law_errors_dropped_only_as_repeats(ms.drop_last(), root, i);
        if prev.contains(d) {
            let j = choose|j: int| 0 <= j < prev.len() && prev[j] == d;
            assert(k[j] == d);
        } else {
            let j = choose|j: int|
                #![trigger prev[j]]
                0 <= j < prev.len() && prev[j].message == d.message && located(prev[j]) == located(d);
            assert(k[j] == prev[j]);
        }
    }
}


/// Collecting keeps only errors, each once: every kept diagnostic is an
/// error of the output with its paths made relative, and no two kept ones
/// have the same message and are located at the same file and byte.
pub proof fn law_kept_errors_distinct(ms: Seq<DiagnosticView>, root: Seq<char>)
    ensures
        forall|j: int|
            0 <= j < kept_errors(ms, root).len() ==> exists|i: int|
                0 <= i < ms.len() && ms[i].is_error && #[trigger] kept_errors(ms, root)[j] == normalized(
                    #[trigger] ms[i],
                    root,
                ),
        forall|j1: int, j2: int|
            0 <= j1 < j2 < kept_errors(ms, root).len() ==> !((#[trigger] kept_errors(ms, root)[j1]).message
                == (#[trigger] kept_errors(ms, root)[j2]).message && located(kept_errors(ms, root)[j1])
                == located(kept_errors(ms, root)[j2])),
    decreases ms.len(),
{
    if ms.len() > 0 {
        let pm = ms.drop_last();
        let prev = kept_errors(pm, root);
        let k = kept_errors(ms, root);
        let d = normalized(ms.last(), root);
        law_kept_errors_distinct(pm, root);
        assert forall|j: int| 0 <= j < prev.len() implies #[trigger] k[j] == prev[j] by {}
        assert forall|j: int| 0 <= j < k.len() implies exists|i: int|
            0 <= i < ms.len() && ms[i].is_error && #[trigger] k[j] == normalized(#[trigger] ms[i], root) by {
            if j < prev.len() {
                let i = choose|i: int| 0 <= i < pm.len() && pm[i].is_error && #[trigger] prev[j] == normalized(
                    #[trigger] pm[i],
                    root,
                );
                assert(ms[i] == pm[i]);
            } else {
                assert(k[j] == d);
                assert(ms[ms.len() - 1] == ms.last());
            }
        }
        assert forall|j1: int, j2: int| 0 <= j1 < j2 < k.len() implies !((#[trigger] k[j1]).message
            == (#[trigger] k[j2]).message && located(k[j1]) == located(k[j2])) by {
            if j2 >= prev.len() {
                assert(k[j2] == d);
                assert(diag_key(prev[j1]) != diag_key(d));
                assert(located(prev[j1]) == diag_key(prev[j1]).1);
                assert(located(d) == diag_key(d).1);
            } else {
                assert(k[j1] == prev[j1] && k[j2] == prev[j2]);
            }
        }
    }
}


/// A name in backticks is mentioned as a derive: in a text where `b`, an
/// identifier, stands between the first pair of backticks (as in
/// "`Foo` doesn't implement `Debug`" for `Foo`), `b` is mentioned.
pub proof fn law_backticked_name_mentioned(pre: Seq<char>, b: Seq<char>, post: Seq<char>)
    requires
        forall|i: int| 0 <= i < pre.len() ==> #[trigger] pre[i] != '`',
        b.len() > 0,
        forall|i: int| 0 <= i < b.len() ==> is_ident_char(#[trigger] b[i]),
    ensures
        named_in_backticks(b, pre + seq!['`'] + b + seq!['`'] + post),
        derive_mentioned(b, pre + seq!['`'] + b + seq!['`'] + post),
{
    let bt = Separator::Is('`');
    let text = pre + seq!['`'] + b + seq!['`'] + post;
    let p1 = pre.push('`');
    let x = p1 + b + seq!['`'];
    assert forall|i: int| 0 <= i < b.len() implies !bt.separates(#[trigger] b[i]) && !Separator::NonPathChar.separates(b[i]) && b[i] != ':' && b[i] != '<' by {
        assert(is_ident_char(b[i]));
    }
    // the pieces between backticks: `pre`, `b`, and what follows
    lemma_split_by_plain(pre, bt);
    assert(p1.drop_last() == pre);
    assert(split_by(p1, bt) =~= seq![pre, Seq::<char>::empty()]);
    lemma_split_by_last_piece(p1, b, bt);
    assert(split_by(p1 + b, bt) =~= seq![pre, b]) by {
        lemma_split_by_prefix(p1, b, bt);
        assert(split_by(p1 + b, bt)[0] == pre);
    }
    assert(x.drop_last() =~= p1 + b);
    assert(x.last() == '`');
    assert(split_by(x, bt) =~= seq![pre, b, Seq::<char>::empty()]);
    assert(text =~= x + post);
    lemma_split_by_prefix(x, post, bt);
    let pieces = split_by(text, bt);
    assert(pieces[1] == b);
    let regions = backtick_regions(text);
    assert(regions.len() >= 1);
    assert(regions[0] == b);
    // `b` is one path, its own base
    lemma_split_by_plain(b, Separator::NonPathChar);
    assert(seq![b].drop_last() =~= Seq::<Seq<char>>::empty());
    assert(keep_nonempty(Seq::<Seq<char>>::empty()) =~= Seq::<Seq<char>>::empty());
    assert(paths_in(b) =~= seq![b]);
    lemma_last_segment_plain(b);
    lemma_split_by_plain(b, Separator::Is('<'));
    assert(path_base(b) == b);
    assert(trim_colons_start(b) == b);
    assert(trim_colons_end(b) == b);
    assert(trim_colons(path_base(paths_in(regions[0])[0])) == b);
}

} // verus!
