//! Rewriting sandbox sources: filling a placeholder's slot with the derives
//! restored so far, and removing the placeholders at the end.

use vstd::prelude::*;

use crate::items::{item_views, Item, ItemView};
use crate::text::{
    chars_of, join_with, push_all, push_joined_strs, same_chars, slice_chars, string_of,
    trim_white, trim_white_range, trim_white_start,
};

verus! {

broadcast use {vstd::string::group_string_axioms, vstd::slice::group_slice_axioms};

/// The comment that stands in place of a stripped `#[derive(...)]`. The
/// restore pass expects a two-line block: this marker, and below it an
/// empty slot line into which `#[derive(...)]` is written.
pub const PLACEHOLDER_MARKER: &'static str = "// __DERIVE_PLACEHOLDER__";

pub open spec fn marker() -> Seq<char> {
    PLACEHOLDER_MARKER@
}

/// `s` split after every newline (`str::split_inclusive('\n')`): every
/// piece but perhaps the last ends with a newline, and no piece is empty.
pub open spec fn lines_of(s: Seq<char>) -> Seq<Seq<char>>
    decreases s.len(),
{
    if s.len() == 0 {
        Seq::empty()
    } else {
        let r = lines_of(s.drop_last());
        if r.len() > 0 && r.last().last() != '\n' {
            r.update(r.len() - 1, r.last().push(s.last()))
        } else {
            r.push(seq![s.last()])
        }
    }
}

/// The concatenation of `ls`.
pub open spec fn concat(ls: Seq<Seq<char>>) -> Seq<char>
    decreases ls.len(),
{
    if ls.len() == 0 {
        Seq::empty()
    } else {
        concat(ls.drop_last()) + ls.last()
    }
}

/// `s` without its trailing newlines (`trim_end_matches('\n')`).
pub open spec fn trim_newlines(s: Seq<char>) -> Seq<char>
    decreases s.len(),
{
    if s.len() > 0 && s.last() == '\n' {
        trim_newlines(s.drop_last())
    } else {
        s
    }
}

/// The line is a placeholder marker, indentation allowed.
pub open spec fn is_marker_line(line: Seq<char>) -> bool {
    trim_white_start(trim_newlines(line)) == marker()
}

/// The line is a placeholder marker, surrounding whitespace allowed.
pub open spec fn is_marker_line_trimmed(line: Seq<char>) -> bool {
    trim_white(trim_newlines(line)) == marker()
}

/// The line holds nothing but whitespace.
pub open spec fn is_blank_line(line: Seq<char>) -> bool {
    trim_white(trim_newlines(line)).len() == 0
}

/// The nearest marker line strictly above the 1-based line `item_line`,
/// as a 0-based index.
pub open spec fn marker_above(lines: Seq<Seq<char>>, item_line: int) -> Option<int> {
    last_marker_before(lines, if item_line >= 1 { item_line - 1 } else { 0 })
}

/// The largest index below `stop` of a marker line.
pub open spec fn last_marker_before(lines: Seq<Seq<char>>, stop: int) -> Option<int>
    decreases stop,
{
    if stop <= 0 {
        None
    } else if is_marker_line(lines[stop - 1]) {
        Some(stop - 1)
    } else {
        last_marker_before(lines, stop - 1)
    }
}

pub proof fn lemma_last_marker_before(lines: Seq<Seq<char>>, stop: int)
    ensures
        last_marker_before(lines, stop) matches Some(i) ==> 0 <= i < stop,
    decreases stop,
{
    if stop > 0 {
        lemma_last_marker_before(lines, stop - 1);
    }
}

/// The indentation of `line`: its leading whitespace.
pub open spec fn indent_of(line: Seq<char>) -> Seq<char> {
    let content = trim_newlines(line);
    content.take(content.len() - trim_white_start(content).len())
}

/// The slot line `indent#[derive(A, B)]`, ending with a newline when the
/// existing slot did.
pub open spec fn slot_line(indent: Seq<char>, existing: Seq<char>, derives: Seq<Seq<char>>) -> Seq<char> {
    let line = indent + "#[derive("@ + join_with(derives, seq![',', ' ']) + seq![')', ']'];
    if existing.len() > 0 && existing.last() == '\n' {
        line.push('\n')
    } else {
        line
    }
}

/// Splits `s` after every newline ([`lines_of`]).
pub fn split_lines(s: &[char]) -> (r: Vec<Vec<char>>)
    ensures
        crate::text::views(r@) == lines_of(s@),
        forall|i: int| 0 <= i < r@.len() ==> #[trigger] r@[i]@.len() > 0,
{
    let mut r: Vec<Vec<char>> = Vec::new();
    let mut i: usize = 0;
    let n = s.len();
    assert(s@.take(0) =~= Seq::<char>::empty());
    while i < n
        invariant
            n == s@.len(),
            i <= n,
            crate::text::views(r@) == lines_of(s@.take(i as int)),
            forall|k: int| 0 <= k < r@.len() ==> #[trigger] r@[k]@.len() > 0,
        decreases n - i,
    {
        proof {
            assert(s@.take(i as int + 1).drop_last() =~= s@.take(i as int));
        }
        let c = s[i];
        let ghost prev = crate::text::views(r@);
        let rl = r.len();
        if rl > 0 && r[rl - 1][r[rl - 1].len() - 1] != '\n' {
            let mut last = r.pop().unwrap();
            last.push(c);
            proof {
                crate::text::lemma_views_push(r@, last);
            }
            r.push(last);
            proof {
                assert(crate::text::views(r@) =~= prev.update(prev.len() - 1, prev.last().push(c)));
            }
        } else {
            let piece = vec![c];
            proof {
                crate::text::lemma_views_push(r@, piece);
                assert(piece@ =~= seq![c]);
            }
            r.push(piece);
        }
        i = i + 1;
    }
    proof {
        assert(s@.take(n as int) == s@);
    }
    r
}

/// `line` without trailing newlines, as an index bound.
fn trim_newlines_len(line: &[char]) -> (r: usize)
    ensures
        r <= line@.len(),
        line@.take(r as int) == trim_newlines(line@),
{
    let mut e = line.len();
    assert(line@.take(e as int) == line@);
    while e > 0 && line[e - 1] == '\n'
        invariant
            e <= line@.len(),
            trim_newlines(line@) == trim_newlines(line@.take(e as int)),
        decreases e,
    {
        proof {
            assert(line@.take(e as int).drop_last() =~= line@.take(e as int - 1));
        }
        e = e - 1;
    }
    e
}

fn marker_chars() -> (r: Vec<char>)
    ensures
        r@ == marker(),
{
    chars_of(PLACEHOLDER_MARKER)
}

/// The line is a placeholder marker ([`is_marker_line`]).
pub fn marker_line(line: &[char], mk: &[char]) -> (r: bool)
    requires
        mk@ == marker(),
    ensures
        r == is_marker_line(line@),
{
    let e = trim_newlines_len(line);
    let content = slice_chars(line, 0, e);
    let (a, _b) = trim_white_range(content.as_slice());
    proof {
        assert(line@.subrange(0, e as int) == line@.take(e as int));
    }
    let rest = slice_chars(content.as_slice(), a, content.len());
    same_chars(rest.as_slice(), mk)
}

/// The line is a placeholder marker once trimmed
/// ([`is_marker_line_trimmed`]), and whether it is blank.
fn trimmed_line(line: &[char]) -> (r: Vec<char>)
    ensures
        r@ == trim_white(trim_newlines(line@)),
{
    let e = trim_newlines_len(line);
    let content = slice_chars(line, 0, e);
    proof {
        assert(line@.subrange(0, e as int) == line@.take(e as int));
    }
    let (a, b) = trim_white_range(content.as_slice());
    slice_chars(content.as_slice(), a, b)
}

/// The 0-based index of the nearest placeholder marker line strictly above
/// the 1-based line `item_line` ([`marker_above`]).
pub fn find_marker_line_above(lines: &Vec<Vec<char>>, item_line: usize) -> (r: Option<usize>)
    requires
        item_line <= lines@.len() + 1,
    ensures
        match marker_above(crate::text::views(lines@), item_line as int) {
            Some(i) => r == Some(i as usize),
            None => r is None,
        },
        r matches Some(i) ==> i < lines@.len(),
{
    let ghost lv = crate::text::views(lines@);
    let mk = marker_chars();
    let stop: usize = if item_line >= 1 { item_line - 1 } else { 0 };
    let mut i = stop;
    while i > 0
        invariant
            lv == crate::text::views(lines@),
            stop <= lines@.len(),
            i <= stop,
            mk@ == marker(),
            marker_above(lv, item_line as int) == last_marker_before(lv, i as int),
        decreases i,
    {
        proof {
            assert(lv[i - 1] == lines@[i - 1]@);
        }
        if marker_line(lines[i - 1].as_slice(), mk.as_slice()) {
            return Some(i - 1);
        }
        i = i - 1;
    }
    None
}

/// The indentation of `line` ([`indent_of`]).
pub fn line_indent(line: &[char]) -> (r: Vec<char>)
    ensures
        r@ == indent_of(line@),
{
    let e = trim_newlines_len(line);
    let content = slice_chars(line, 0, e);
    proof {
        assert(line@.subrange(0, e as int) == line@.take(e as int));
    }
    let (a, _b) = trim_white_range(content.as_slice());
    proof {
        assert(content@.subrange(a as int, content@.len() as int).len() == content@.len() - a);
    }
    slice_chars(content.as_slice(), 0, a)
}

/// The slot line for `derives` ([`slot_line`]).
pub fn build_slot_line(indent: &[char], existing_slot: &[char], derives: &[&str]) -> (r: Vec<char>)
    ensures
        r@ == slot_line(indent@, existing_slot@, derives@.map_values(|s: &str| s@)),
{
    let mut line: Vec<char> = Vec::new();
    push_all(&mut line, indent);
    let open = chars_of("#[derive(");
    push_all(&mut line, open.as_slice());
    let sep = vec![',', ' '];
    push_joined_strs(&mut line, derives, sep.as_slice());
    line.push(')');
    line.push(']');
    let n = existing_slot.len();
    if n > 0 && existing_slot[n - 1] == '\n' {
        line.push('\n');
    }
    proof {
        assert(sep@ =~= seq![',', ' ']);
        let l = indent@ + "#[derive("@ + join_with(derives@.map_values(|s: &str| s@), seq![',', ' '])
            + seq![')', ']'];
        if n > 0 && existing_slot@.last() == '\n' {
            assert(line@ =~= l.push('\n'));
        } else {
            assert(line@ =~= l);
        }
    }
    line
}

/// What `source` becomes when its placeholder markers go: each marker line
/// is dropped, and with it the line below when that line is blank (a slot
/// that was never filled).
pub open spec fn cleaned(ls: Seq<Seq<char>>) -> Seq<char>
    decreases ls.len(),
{
    if ls.len() == 0 {
        Seq::empty()
    } else if is_marker_line_trimmed(ls[0]) {
        if ls.len() > 1 && is_blank_line(ls[1]) {
            cleaned(ls.skip(2))
        } else {
            cleaned(ls.skip(1))
        }
    } else {
        ls[0] + cleaned(ls.skip(1))
    }
}

/// Every piece is a line: not empty, with a newline at most at its end,
/// and every piece but the last ends with a newline.
pub open spec fn well_lined(ks: Seq<Seq<char>>) -> bool {
    &&& forall|i: int| 0 <= i < ks.len() ==> (#[trigger] ks[i]).len() > 0
    &&& forall|i: int, j: int|
        0 <= i < ks.len() && 0 <= j < ks[i].len() - 1 ==> (#[trigger] ks[i][j]) != '\n'
    &&& forall|i: int| 0 <= i < ks.len() - 1 ==> (#[trigger] ks[i]).last() == '\n'
}

proof fn lemma_lines_of_well_lined(s: Seq<char>)
    ensures
        well_lined(lines_of(s)),
        s.len() == 0 <==> lines_of(s).len() == 0,
        s.len() > 0 ==> lines_of(s).last().last() == s.last(),
    decreases s.len(),
{
    if s.len() > 0 {
        lemma_lines_of_well_lined(s.drop_last());
        let r = lines_of(s.drop_last());
        let c = s.last();
        if r.len() > 0 && r.last().last() != '\n' {
            let n = r.update(r.len() - 1, r.last().push(c));
            assert forall|i: int, j: int| 0 <= i < n.len() && 0 <= j < n[i].len() - 1 implies (
            #[trigger] n[i][j]) != '\n' by {
                if i == n.len() - 1 {
                    if j < r.last().len() - 1 {
                        assert(n[i][j] == r[i][j]);
                    } else {
                        assert(n[i][j] == r.last().last());
                    }
                } else {
                    assert(n[i][j] == r[i][j]);
                }
            }
            assert forall|i: int| 0 <= i < n.len() - 1 implies (#[trigger] n[i]).last() == '\n' by {
                assert(n[i] == r[i]);
            }
        } else {
            let n = r.push(seq![c]);
            assert forall|i: int, j: int| 0 <= i < n.len() && 0 <= j < n[i].len() - 1 implies (
            #[trigger] n[i][j]) != '\n' by {
                assert(n[i][j] == r[i][j]);
            }
            assert forall|i: int| 0 <= i < n.len() - 1 implies (#[trigger] n[i]).last() == '\n' by {
                assert(n[i] == r[i]);
            }
        }
    }
}

proof fn lemma_lines_of_append_line(a: Seq<char>, l: Seq<char>)
    requires
        a.len() == 0 || a.last() == '\n',
        l.len() > 0,
        forall|j: int| 0 <= j < l.len() - 1 ==> l[j] != '\n',
    ensures
        lines_of(a + l) == lines_of(a).push(l),
    decreases l.len(),
{
    lemma_lines_of_well_lined(a);
    let c = l.last();
    if l.len() == 1 {
        assert((a + l).drop_last() =~= a);
        assert((a + l).last() == c);
        assert(l =~= seq![c]);
    } else {
        let lp = l.drop_last();
        lemma_lines_of_append_line(a, lp);
        assert((a + l).drop_last() =~= a + lp);
        assert((a + l).last() == c);
        assert(lp.last() == l[l.len() - 2]);
        assert(lp.push(c) =~= l);
        assert(lines_of(a).push(lp).update(lines_of(a).len() as int, lp.push(c)) =~= lines_of(a).push(l));
    }
}

proof fn lemma_lines_of_concat(ks: Seq<Seq<char>>)
    requires
        well_lined(ks),
    ensures
        lines_of(concat(ks)) == ks,
    decreases ks.len(),
{
    if ks.len() > 0 {
        let kp = ks.drop_last();
        assert(well_lined(kp)) by {
            assert forall|i: int, j: int| 0 <= i < kp.len() && 0 <= j < kp[i].len() - 1 implies (
            #[trigger] kp[i][j]) != '\n' by {
                assert(kp[i] == ks[i]);
                assert(ks[i][j] != '\n');
            }
            assert forall|i: int| 0 <= i < kp.len() - 1 implies (#[trigger] kp[i]).last() == '\n' by {
                assert(kp[i] == ks[i]);
            }
            assert forall|i: int| 0 <= i < kp.len() implies (#[trigger] kp[i]).len() > 0 by {
                assert(kp[i] == ks[i]);
            }
        }
        lemma_lines_of_concat(kp);
        let a = concat(kp);
        let l = ks.last();
        assert(l.len() > 0 && l == ks[ks.len() - 1]);
        assert forall|j: int| 0 <= j < l.len() - 1 implies l[j] != '\n' by {
            assert(ks[ks.len() - 1][j] != '\n');
        }
        if kp.len() > 0 {
            lemma_lines_of_well_lined(a);
            assert(kp.last() == ks[kp.len() - 1]);
            assert(ks[kp.len() - 1].last() == '\n');
            if a.len() > 0 {
                assert(lines_of(a).last().last() == a.last());
            } else {
                assert(lines_of(a).len() == 0);
            }
        }
        lemma_lines_of_append_line(a, l);
        assert(kp.push(l) =~= ks);
    }
}

/// The lines that cleaning keeps ([`cleaned`]).
pub open spec fn kept_lines(ls: Seq<Seq<char>>) -> Seq<Seq<char>>
    decreases ls.len(),
{
    if ls.len() == 0 {
        ls
    } else if is_marker_line_trimmed(ls[0]) {
        if ls.len() > 1 && is_blank_line(ls[1]) {
            kept_lines(ls.skip(2))
        } else {
            kept_lines(ls.skip(1))
        }
    } else {
        seq![ls[0]] + kept_lines(ls.skip(1))
    }
}

proof fn lemma_concat_prepend(x: Seq<char>, rest: Seq<Seq<char>>)
    ensures
        concat(seq![x] + rest) == x + concat(rest),
    decreases rest.len(),
{
    let s = seq![x] + rest;
    assert(concat(s) == concat(s.drop_last()) + s.last());
    if rest.len() == 0 {
        assert(s.drop_last() =~= Seq::<Seq<char>>::empty());
        assert(concat(s.drop_last()) == Seq::<char>::empty());
        assert(s.last() == x);
        assert(concat(rest) == Seq::<char>::empty());
        assert(Seq::<char>::empty() + x =~= x);
        assert(x + Seq::<char>::empty() =~= x);
    } else {
        lemma_concat_prepend(x, rest.drop_last());
        assert(s.drop_last() =~= seq![x] + rest.drop_last());
        assert(s.last() == rest.last());
        assert(concat(rest) == concat(rest.drop_last()) + rest.last());
        assert(x + concat(rest.drop_last()) + rest.last() =~= x + (concat(rest.drop_last()) + rest.last()));
    }
}

proof fn lemma_skip_well_lined(ls: Seq<Seq<char>>, n: int)
    requires
        well_lined(ls),
        0 <= n <= ls.len(),
    ensures
        well_lined(ls.skip(n)),
{
    let t = ls.skip(n);
    assert forall|i: int| 0 <= i < t.len() implies (#[trigger] t[i]).len() > 0 by {
        assert(t[i] == ls[i + n]);
    }
    assert forall|i: int, j: int| 0 <= i < t.len() && 0 <= j < t[i].len() - 1 implies (
    #[trigger] t[i][j]) != '\n' by {
        assert(t[i] == ls[i + n]);
        assert(ls[i + n][j] != '\n');
    }
    assert forall|i: int| 0 <= i < t.len() - 1 implies (#[trigger] t[i]).last() == '\n' by {
        assert(t[i] == ls[i + n]);
    }
}

proof fn lemma_kept_lines(ls: Seq<Seq<char>>)
    requires
        well_lined(ls),
    ensures
        cleaned(ls) == concat(kept_lines(ls)),
        well_lined(kept_lines(ls)),
        forall|k: int| 0 <= k < kept_lines(ls).len() ==> !is_marker_line_trimmed(#[trigger] kept_lines(ls)[k]),
        kept_lines(ls).len() <= ls.len(),
    decreases ls.len(),
{
    if ls.len() > 0 {
        if is_marker_line_trimmed(ls[0]) {
            let n: int = if ls.len() > 1 && is_blank_line(ls[1]) {
                2
            } else {
                1
            };
            lemma_skip_well_lined(ls, n);
            lemma_kept_lines(ls.skip(n));
        } else {
            let rest = ls.skip(1);
            lemma_skip_well_lined(ls, 1);
            lemma_kept_lines(rest);
            let kr = kept_lines(rest);
            let k = seq![ls[0]] + kr;
            lemma_concat_prepend(ls[0], kr);
            assert forall|i: int| 0 <= i < k.len() implies (#[trigger] k[i]).len() > 0 by {
                if i > 0 {
                    assert(k[i] == kr[i - 1]);
                }
            }
            assert forall|i: int, j: int| 0 <= i < k.len() && 0 <= j < k[i].len() - 1 implies (
            #[trigger] k[i][j]) != '\n' by {
                if i > 0 {
                    assert(k[i] == kr[i - 1]);
                    assert(kr[i - 1][j] != '\n');
                } else {
                    assert(ls[0][j] != '\n');
                }
            }
            assert forall|i: int| 0 <= i < k.len() - 1 implies (#[trigger] k[i]).last() == '\n' by {
                if i > 0 {
                    assert(k[i] == kr[i - 1]);
                } else {
                    assert(ls[0] == ls[0]);
                }
            }
            assert forall|i: int| 0 <= i < k.len() implies !is_marker_line_trimmed(#[trigger] k[i]) by {
                if i > 0 {
                    assert(k[i] == kr[i - 1]);
                }
            }
        }
    }
}

/// Once cleaned, no line of a source is a placeholder marker: the files
/// copied back hold none of the markers that stripping left.
pub proof fn law_cleaned_has_no_marker(source: Seq<char>)
    ensures
        forall|k: int|
            0 <= k < lines_of(cleaned(lines_of(source))).len() ==> !is_marker_line_trimmed(
                #[trigger] lines_of(cleaned(lines_of(source)))[k],
            ),
{
    let ls = lines_of(source);
    lemma_lines_of_well_lined(source);
    lemma_kept_lines(ls);
    lemma_lines_of_concat(kept_lines(ls));
}

proof fn lemma_cleaned_without_markers(ks: Seq<Seq<char>>)
    requires
        forall|k: int| 0 <= k < ks.len() ==> !is_marker_line_trimmed(#[trigger] ks[k]),
    ensures
        cleaned(ks) == concat(ks),
    decreases ks.len(),
{
    if ks.len() > 0 {
        let rest = ks.skip(1);
        assert forall|k: int| 0 <= k < rest.len() implies !is_marker_line_trimmed(#[trigger] rest[k]) by {
            assert(rest[k] == ks[k + 1]);
        }
        lemma_cleaned_without_markers(rest);
        assert(!is_marker_line_trimmed(ks[0]));
        lemma_concat_prepend(ks[0], rest);
        assert(seq![ks[0]] + rest =~= ks);
    }
}

/// Cleaning is done once and for all: cleaning a cleaned source changes
/// nothing.
pub proof fn law_clean_twice(source: Seq<char>)
    ensures
        cleaned(lines_of(cleaned(lines_of(source)))) == cleaned(lines_of(source)),
{
    let ls = lines_of(source);
    lemma_lines_of_well_lined(source);
    lemma_kept_lines(ls);
    lemma_lines_of_concat(kept_lines(ls));
    lemma_cleaned_without_markers(kept_lines(ls));
}

/// Removes every placeholder marker line, and the empty slot line below a
/// marker ([`cleaned`]).
pub fn clean_placeholders(source: &str) -> (r: String)
    ensures
        r@ == cleaned(lines_of(source@)),
{
    let chars = chars_of(source);
    let lines = split_lines(chars.as_slice());
    let ghost lv = crate::text::views(lines@);
    let mk = marker_chars();
    let mut out: Vec<char> = Vec::new();
    let n = lines.len();
    let mut i: usize = 0;
    assert(lv.skip(0) == lv);
    while i < n
        invariant
            n == lines@.len(),
            lv == crate::text::views(lines@),
            lv == lines_of(source@),
            mk@ == marker(),
            i <= n,
            out@ + cleaned(lv.skip(i as int)) == cleaned(lv),
        decreases n - i,
    {
        let t = trimmed_line(lines[i].as_slice());
        if same_chars(t.as_slice(), mk.as_slice()) {
            let drop_slot = i + 1 < n && {
                let t2 = trimmed_line(lines[i + 1].as_slice());
                t2.len() == 0
            };
            proof {
                assert(lv.skip(i as int)[0] == lv[i as int]);
                if i + 1 < n {
                    assert(lv.skip(i as int)[1] == lv[i as int + 1]);
                }
                assert(lv.skip(i as int).skip(1) =~= lv.skip(i as int + 1));
                if i + 2 <= n {
                    assert(lv.skip(i as int).skip(2) =~= lv.skip(i as int + 2));
                }
            }
            if drop_slot {
                i = i + 2;
            } else {
                i = i + 1;
            }
        } else {
            proof {
                assert(lv.skip(i as int)[0] == lv[i as int]);
                assert(lv.skip(i as int).skip(1) =~= lv.skip(i as int + 1));
                assert(out@ + (lv[i as int] + cleaned(lv.skip(i as int + 1))) =~= (out@ + lv[i as int])
                    + cleaned(lv.skip(i as int + 1)));
            }
            push_all(&mut out, lines[i].as_slice());
            i = i + 1;
        }
    }
    proof {
        assert(lv.skip(n as int) =~= Seq::<Seq<char>>::empty());
        assert(out@ + Seq::<char>::empty() =~= out@);
    }
    string_of(out.as_slice())
}

/// The lines after rewriting the slot of `it`: the line below the nearest
/// marker above the item becomes the slot line of the derives restored so
/// far, indented like the marker. Nothing changes when there is no such
/// marker or no line below it.
pub open spec fn fill_slot(lines: Seq<Seq<char>>, it: ItemView) -> Seq<Seq<char>> {
    match marker_above(lines, it.lineno_sandbox as int) {
        None => lines,
        Some(m) => if m + 1 >= lines.len() {
            lines
        } else {
            lines.update(m + 1, slot_line(indent_of(lines[m]), lines[m + 1], it.restored()))
        },
    }
}

/// The lines after rewriting, in order, the slots of the items of `items`
/// whose sandbox line is listed in `linenos`.
pub open spec fn fill_slots(lines: Seq<Seq<char>>, items: Seq<ItemView>, linenos: Seq<usize>) -> Seq<Seq<char>>
    decreases items.len(),
{
    if items.len() == 0 {
        lines
    } else {
        let before = fill_slots(lines, items.drop_last(), linenos);
        if linenos.contains(items.last().lineno_sandbox) {
            fill_slot(before, items.last())
        } else {
            before
        }
    }
}

pub proof fn lemma_fill_slots_len(lines: Seq<Seq<char>>, items: Seq<ItemView>, linenos: Seq<usize>)
    ensures
        fill_slots(lines, items, linenos).len() == lines.len(),
    decreases items.len(),
{
    if items.len() > 0 {
        lemma_fill_slots_len(lines, items.drop_last(), linenos);
        let before = fill_slots(lines, items.drop_last(), linenos);
        let it = items.last();
        lemma_last_marker_before(before, if it.lineno_sandbox >= 1 { it.lineno_sandbox - 1 } else { 0 });
        assert(fill_slot(before, items.last()).len() == before.len());
    }
}

/// The source after rewriting the slots of the items of `items` whose
/// sandbox line is in `linenos`, each with its restored derives in source
/// order ([`fill_slots`]).
pub fn patch_source(source: &str, items: &[Item], linenos: &[usize]) -> (r: String)
    requires
        forall|k: int|
            0 <= k < items@.len() && linenos@.contains((#[trigger] items@[k])@.lineno_sandbox)
                ==> items@[k]@.lineno_sandbox <= lines_of(source@).len() + 1,
    ensures
        r@ == concat(fill_slots(lines_of(source@), item_views(items@), linenos@)),
{
    let chars = chars_of(source);
    let mut lines = split_lines(chars.as_slice());
    let ghost lv0 = crate::text::views(lines@);
    let ni = items.len();
    let mut k: usize = 0;
    assert(item_views(items@).take(0) =~= Seq::<ItemView>::empty());
    while k < ni
        invariant
            ni == items@.len(),
            k <= ni,
            lv0 == lines_of(source@),
            crate::text::views(lines@) == fill_slots(lv0, item_views(items@).take(k as int), linenos@),
            forall|kk: int|
                0 <= kk < items@.len() && linenos@.contains((#[trigger] items@[kk])@.lineno_sandbox)
                    ==> items@[kk]@.lineno_sandbox <= lv0.len() + 1,
        decreases ni - k,
    {
        let it = &items[k];
        proof {
            assert(item_views(items@).take(k as int + 1).drop_last() =~= item_views(items@).take(k as int));
            assert(item_views(items@).take(k as int + 1).last() == it@);
            lemma_fill_slots_len(lv0, item_views(items@).take(k as int), linenos@);
        }
        let line = it.lineno_sandbox();
        let mut listed = false;
        let mut q: usize = 0;
        while q < linenos.len()
            invariant
                q <= linenos@.len(),
                listed == exists|x: int| 0 <= x < q && linenos@[x] == line,
            decreases linenos@.len() - q,
        {
            if linenos[q] == line {
                listed = true;
            }
            q = q + 1;
        }
        proof {
            assert(listed == linenos@.contains(line));
        }
        if listed {
            let ghost before = crate::text::views(lines@);
            proof {
                lemma_last_marker_before(before, if line >= 1 { line - 1 } else { 0 });
            }
            let found = find_marker_line_above(&lines, line);
            match found {
                None => {},
                Some(m) => {
                    let nl = lines.len();
                    if m + 1 < nl {
                        let restored = it.derives_restored();
                        let indent = line_indent(lines[m].as_slice());
                        let slot = build_slot_line(indent.as_slice(), lines[m + 1].as_slice(), restored.as_slice());
                        lines.set(m + 1, slot);
                        proof {
                            assert(crate::text::views(lines@) =~= before.update(
                                m + 1,
                                slot_line(indent_of(before[m as int]), before[m + 1], it@.restored()),
                            ));
                        }
                    }
                },
            }
        }
        k = k + 1;
    }
    proof {
        assert(item_views(items@).take(ni as int) == item_views(items@));
    }
    let mut out: Vec<char> = Vec::new();
    let ghost lv = crate::text::views(lines@);
    let mut j: usize = 0;
    let nl = lines.len();
    assert(lv.take(0) =~= Seq::<Seq<char>>::empty());
    while j < nl
        invariant
            nl == lines@.len(),
            lv == crate::text::views(lines@),
            j <= nl,
            out@ == concat(lv.take(j as int)),
        decreases nl - j,
    {
        proof {
            assert(lv.take(j as int + 1).drop_last() =~= lv.take(j as int));
        }
        push_all(&mut out, lines[j].as_slice());
        j = j + 1;
    }
    proof {
        assert(lv.take(nl as int) == lv);
    }
    string_of(out.as_slice())
}


proof fn lemma_last_marker_before_nearest(lines: Seq<Seq<char>>, stop: int)
    ensures
        last_marker_before(lines, stop) matches Some(m) ==> 0 <= m < stop && is_marker_line(lines[m])
            && forall|t: int| m < t < stop ==> !is_marker_line(#[trigger] lines[t]),
        last_marker_before(lines, stop) is None ==> forall|t: int|
            0 <= t < stop ==> !is_marker_line(#[trigger] lines[t]),
    decreases stop,
{
    if stop > 0 {
        lemma_last_marker_before_nearest(lines, stop - 1);
    }
}

/// The slot an item's restored derives are written into is the line below
/// the nearest marker line above the item's sandbox line; when no marker
/// stands above it, nothing is written. No other line changes.
pub proof fn law_slot_below_nearest_marker(lines: Seq<Seq<char>>, it: ItemView)
    requires
        1 <= it.lineno_sandbox <= lines.len() + 1,
    ensures
        fill_slot(lines, it).len() == lines.len(),
        marker_above(lines, it.lineno_sandbox as int) matches Some(m) ==> {
            &&& 0 <= m < it.lineno_sandbox - 1
            &&& is_marker_line(lines[m])
            &&& forall|t: int| m < t < it.lineno_sandbox - 1 ==> !is_marker_line(#[trigger] lines[t])
            &&& forall|t: int|
                0 <= t < lines.len() && t != m + 1 ==> #[trigger] fill_slot(lines, it)[t] == lines[t]
        },
        marker_above(lines, it.lineno_sandbox as int) is None ==> {
            &&& forall|t: int| 0 <= t < it.lineno_sandbox - 1 ==> !is_marker_line(#[trigger] lines[t])
            &&& fill_slot(lines, it) == lines
        },
{
    lemma_last_marker_before_nearest(lines, it.lineno_sandbox - 1);
}

} // verus!
