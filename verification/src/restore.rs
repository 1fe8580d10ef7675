//! The compiler-guided restore pass: which item a diagnostic is about, which
//! of its stripped derives to put back, and when to stop asking the compiler.

use vstd::prelude::*;

use crate::check::{
    derive_mentioned, item_names_in, location_index, references_path, Diagnostic, SpanView,
};
use crate::items::{
    item_views, lemma_strs_push, lemma_without_contains, strs, with_item, without,
    EntryView, Item, ItemView, Items,
};
use crate::error::ToolError;
use crate::path::same_path;
use crate::report::{pending_in, total_pending};
use crate::text::{
    ascii_upper, chars_of, decimal, decimal_of, is_ascii_upper, join_with, lemma_split_by_nonempty, push_all,
    push_joined, split, split_by, string_of, views, Separator,
};

verus! {

broadcast use {vstd::string::group_string_axioms, vstd::slice::group_slice_axioms};

/// The item still has derives waiting to be restored.
pub open spec fn pending(it: ItemView) -> bool {
    it.unused.len() > 0
}

/// Some derive of `derives` is mentioned in `text`.
pub open spec fn mentions_any(derives: Seq<Seq<char>>, text: Seq<char>) -> bool {
    exists|k: int| 0 <= k < derives.len() && derive_mentioned(#[trigger] derives[k], text)
}

/// `(a, b)` comes before `(i, j)` when walking the files in order and each
/// file's items in order.
pub open spec fn walked_before(a: int, b: int, i: int, j: int) -> bool {
    a < i || (a == i && b < j)
}

/// The `j`-th item of the `i`-th file exists and has derives pending.
pub open spec fn pending_at(v: Seq<EntryView>, i: int, j: int) -> bool {
    0 <= i < v.len() && 0 <= j < v[i].1.len() && pending(v[i].1[j])
}

/// The `j`-th item of the `i`-th file is pending and bears one of `names`.
pub open spec fn named_at(v: Seq<EntryView>, names: Seq<Seq<char>>, i: int, j: int) -> bool {
    pending_at(v, i, j) && names.contains(v[i].1[j].name)
}

/// How well a named item fits a diagnostic: 4 when the diagnostic mentions
/// one of its pending derives, plus 2 when the diagnostic has a span in the
/// item's file.
pub open spec fn name_score(v: Seq<EntryView>, d: Diagnostic, i: int, j: int) -> int {
    (if mentions_any(v[i].1[j].unused, d.text()) {
        4int
    } else {
        0int
    }) + (if references_path(d.report(), v[i].0) {
        2int
    } else {
        0int
    })
}

/// `(i, j)` is the first of the named items with the highest score.
pub open spec fn best_named_at(
    v: Seq<EntryView>,
    d: Diagnostic,
    names: Seq<Seq<char>>,
    i: int,
    j: int,
) -> bool {
    &&& named_at(v, names, i, j)
    &&& forall|a: int, b: int|
        #![trigger named_at(v, names, a, b)]
        named_at(v, names, a, b) ==> name_score(v, d, a, b) <= name_score(v, d, i, j)
    &&& forall|a: int, b: int|
        #![trigger named_at(v, names, a, b)]
        named_at(v, names, a, b) && walked_before(a, b, i, j) ==> name_score(v, d, a, b)
            < name_score(v, d, i, j)
}

/// The named item that best fits the diagnostic, if any item bears one of
/// `names`.
pub open spec fn best_named(v: Seq<EntryView>, d: Diagnostic, names: Seq<Seq<char>>) -> Option<
    (int, int),
> {
    if exists|i: int, j: int| best_named_at(v, d, names, i, j) {
        Some(choose|i: int, j: int| best_named_at(v, d, names, i, j))
    } else {
        None
    }
}

pub proof fn lemma_best_named_unique(
    v: Seq<EntryView>,
    d: Diagnostic,
    names: Seq<Seq<char>>,
    i: int,
    j: int,
    a: int,
    b: int,
)
    requires
        best_named_at(v, d, names, i, j),
        best_named_at(v, d, names, a, b),
    ensures
        i == a && j == b,
{
    assert(named_at(v, names, a, b));
    assert(named_at(v, names, i, j));
}

/// `best_named` is the item that `best_named_at` singles out.
pub proof fn lemma_best_named(v: Seq<EntryView>, d: Diagnostic, names: Seq<Seq<char>>, r: Option<(int, int)>)
    requires
        match r {
            Some(p) => best_named_at(v, d, names, p.0, p.1),
            None => forall|i: int, j: int| !named_at(v, names, i, j),
        },
    ensures
        best_named(v, d, names) == r,
{
    match r {
        Some(p) => {
            assert(best_named_at(v, d, names, p.0, p.1));
            let q = choose|i: int, j: int| best_named_at(v, d, names, i, j);
            lemma_best_named_unique(v, d, names, p.0, p.1, q.0, q.1);
        },
        None => {
            assert forall|i: int, j: int| !best_named_at(v, d, names, i, j) by {
                assert(!named_at(v, names, i, j));
            }
        },
    }
}

/// `name` is one of `names`.
fn listed(names: &[String], name: &str) -> (r: bool)
    ensures
        r == strs(names@).contains(name@),
{
    let wanted = name.to_owned();
    let mut k: usize = 0;
    while k < names.len()
        invariant
            wanted@ == name@,
            k <= names@.len(),
            forall|m: int| 0 <= m < k ==> names@[m]@ != name@,
        decreases names@.len() - k,
    {
        if names[k] == wanted {
            proof {
                assert(strs(names@)[k as int] == name@);
            }
            return true;
        }
        k = k + 1;
    }
    proof {
        if strs(names@).contains(name@) {
            let m = choose|m: int| 0 <= m < strs(names@).len() && strs(names@)[m] == name@;
            assert(names@[m]@ == name@);
        }
    }
    false
}

/// Among the pending items that bear one of `names`, the first with the
/// highest [`name_score`], as (file index, item index).
pub fn pick_by_name(items: &Items, diagnostic: &Diagnostic, names: &[String]) -> (r: Option<(usize, usize)>)
    requires
        items.wf(),
    ensures
        match r {
            Some((i, j)) => best_named_at(items@, *diagnostic, strs(names@), i as int, j as int),
            None => forall|i: int, j: int| !named_at(items@, strs(names@), i, j),
        },
{
    let ghost v = items@;
    let ghost ns = strs(names@);
    let entries = items.iter();
    let mut best: Option<(usize, usize, u8)> = None;
    let mut i: usize = 0;
    while i < entries.len()
        invariant
            v == items@,
            ns == strs(names@),
            entries@.len() == v.len(),
            forall|k: int|
                0 <= k < entries@.len() ==> (#[trigger] entries@[k]).0@ == v[k].0
                    && crate::items::item_views(entries@[k].1@) == v[k].1,
            i <= entries@.len(),
            match best {
                None => forall|a: int, b: int| a < i ==> !named_at(v, ns, a, b),
                Some((bi, bj, bs)) => {
                    &&& bi < i
                    &&& named_at(v, ns, bi as int, bj as int)
                    &&& bs as int == name_score(v, *diagnostic, bi as int, bj as int)
                    &&& forall|a: int, b: int|
                        #![trigger named_at(v, ns, a, b)]
                        a < i && named_at(v, ns, a, b) ==> name_score(v, *diagnostic, a, b) <= bs
                    &&& forall|a: int, b: int|
                        #![trigger named_at(v, ns, a, b)]
                        named_at(v, ns, a, b) && walked_before(a, b, bi as int, bj as int)
                            ==> name_score(v, *diagnostic, a, b) < bs
                },
            },
        decreases entries@.len() - i,
    {
        let (path, its) = entries[i];
        let in_spans = diagnostic.references_file(path);
        let mut j: usize = 0;
        while j < its.len()
            invariant
                v == items@,
                ns == strs(names@),
                entries@.len() == v.len(),
                i < entries@.len(),
                path@ == v[i as int].0,
                crate::items::item_views(its@) == v[i as int].1,
                in_spans == references_path(diagnostic.report(), path@),
                j <= its@.len(),
                match best {
                    None => forall|a: int, b: int| walked_before(a, b, i as int, j as int) ==> !named_at(v, ns, a, b),
                    Some((bi, bj, bs)) => {
                        &&& walked_before(bi as int, bj as int, i as int, j as int)
                        &&& named_at(v, ns, bi as int, bj as int)
                        &&& bs as int == name_score(v, *diagnostic, bi as int, bj as int)
                        &&& forall|a: int, b: int|
                            #![trigger named_at(v, ns, a, b)]
                            walked_before(a, b, i as int, j as int) && named_at(v, ns, a, b)
                                ==> name_score(v, *diagnostic, a, b) <= bs
                        &&& forall|a: int, b: int|
                            #![trigger named_at(v, ns, a, b)]
                            named_at(v, ns, a, b) && walked_before(a, b, bi as int, bj as int)
                                ==> name_score(v, *diagnostic, a, b) < bs
                    },
                },
            decreases its@.len() - j,
        {
            let it: &Item = &its[j];
            let unused = it.derives_unused();
            proof {
                assert(v[i as int].1[j as int] == it@);
            }
            if unused.len() > 0 && listed(names, it.name()) {
                let mentioned = diagnostic.references_derive(unused).is_some();
                proof {
                    if mentioned {
                        let k = choose|k: int| 0 <= k < unused@.len() && derive_mentioned(unused@[k]@, diagnostic.text());
                        assert(strs(unused@)[k] == unused@[k]@);
                    } else {
                        assert forall|k: int| 0 <= k < it@.unused.len() implies !derive_mentioned(#[trigger] it@.unused[k], diagnostic.text()) by {
                            assert(strs(unused@)[k] == unused@[k]@);
                        }
                    }
                    assert(mentioned == mentions_any(it@.unused, diagnostic.text()));
                }
                let score: u8 = (if mentioned { 4u8 } else { 0u8 }) + (if in_spans { 2u8 } else { 0u8 });
                proof {
                    assert(named_at(v, ns, i as int, j as int));
                    assert(score as int == name_score(v, *diagnostic, i as int, j as int));
                }
                let better = match best {
                    None => true,
                    Some((_, _, bs)) => score > bs,
                };
                if better {
                    best = Some((i, j, score));
                }
            } else {
                proof {
                    assert(!named_at(v, ns, i as int, j as int));
                }
            }
            j = j + 1;
        }
        i = i + 1;
    }
    match best {
        Some((bi, bj, _)) => Some((bi, bj)),
        None => None,
    }
}

// ---------------------------------------------------------------------------
// Picking by nearness
// ---------------------------------------------------------------------------

/// How far apart two line numbers are.
pub open spec fn distance(a: int, b: int) -> int {
    if a >= b {
        a - b
    } else {
        b - a
    }
}

/// The `j`-th item of the `i`-th file is pending and stands in `file`.
pub open spec fn near_at(v: Seq<EntryView>, file: Seq<char>, i: int, j: int) -> bool {
    pending_at(v, i, j) && same_path(file, v[i].0)
}

/// How far the `j`-th item of the `i`-th file is from `line`, counted on
/// its sandbox line.
pub open spec fn distance_at(v: Seq<EntryView>, line: int, i: int, j: int) -> int {
    distance(v[i].1[j].lineno_sandbox as int, line)
}

/// `(i, j)` is the first of the pending items of `file` closest to `line`.
pub open spec fn nearest_at(v: Seq<EntryView>, file: Seq<char>, line: int, i: int, j: int) -> bool {
    &&& near_at(v, file, i, j)
    &&& forall|a: int, b: int|
        #![trigger near_at(v, file, a, b)]
        near_at(v, file, a, b) ==> distance_at(v, line, i, j) <= distance_at(v, line, a, b)
    &&& forall|a: int, b: int|
        #![trigger near_at(v, file, a, b)]
        near_at(v, file, a, b) && walked_before(a, b, i, j) ==> distance_at(v, line, i, j)
            < distance_at(v, line, a, b)
}

/// The pending item of `file` closest to `line`, if `file` has one.
pub open spec fn nearest(v: Seq<EntryView>, file: Seq<char>, line: int) -> Option<(int, int)> {
    if exists|i: int, j: int| nearest_at(v, file, line, i, j) {
        Some(choose|i: int, j: int| nearest_at(v, file, line, i, j))
    } else {
        None
    }
}

pub proof fn lemma_nearest(v: Seq<EntryView>, file: Seq<char>, line: int, r: Option<(int, int)>)
    requires
        match r {
            Some(p) => nearest_at(v, file, line, p.0, p.1),
            None => forall|i: int, j: int| !near_at(v, file, i, j),
        },
    ensures
        nearest(v, file, line) == r,
{
    match r {
        Some(p) => {
            let q = choose|i: int, j: int| nearest_at(v, file, line, i, j);
            assert(near_at(v, file, q.0, q.1));
            assert(near_at(v, file, p.0, p.1));
        },
        None => {
            assert forall|i: int, j: int| !nearest_at(v, file, line, i, j) by {
                assert(!near_at(v, file, i, j));
            }
        },
    }
}

/// The span a diagnostic is located at ([`location_index`]).
pub open spec fn loc_span(d: Diagnostic) -> Option<SpanView> {
    match location_index(d.report().spans) {
        Some(k) => Some(d.report().spans[k]),
        None => None,
    }
}

/// A pair of indices as integers.
pub open spec fn as_pair(r: Option<(usize, usize)>) -> Option<(int, int)> {
    match r {
        Some((i, j)) => Some((i as int, j as int)),
        None => None,
    }
}

/// The pending item of the diagnostic's file whose sandbox line is closest
/// to the line the diagnostic starts at; a guess, tried last.
pub fn pick_by_span_proximity(items: &Items, diagnostic: &Diagnostic) -> (r: Option<(usize, usize)>)
    requires
        items.wf(),
    ensures
        as_pair(r) == match loc_span(*diagnostic) {
            Some(s) => nearest(items@, s.file_name, s.line_start as int),
            None => None,
        },
        r matches Some((i, j)) ==> loc_span(*diagnostic) matches Some(s) && pending_at(
            items@,
            i as int,
            j as int,
        ) && same_path(s.file_name, items@[i as int].0) && forall|a: int, b: int|
            #![trigger items@[a].1[b]]
            pending_at(items@, a, b) && same_path(s.file_name, items@[a].0) ==> {
                let dp = items@[i as int].1[j as int].lineno_sandbox as int - s.line_start as int;
                let dq = items@[a].1[b].lineno_sandbox as int - s.line_start as int;
                (if dp >= 0 {
                    dp
                } else {
                    -dp
                }) <= (if dq >= 0 {
                    dq
                } else {
                    -dq
                })
            },
        r is None ==> (loc_span(*diagnostic) matches Some(s) ==> forall|a: int, b: int|
            #![trigger items@[a].1[b]]
            !(pending_at(items@, a, b) && same_path(s.file_name, items@[a].0))),
{
    let loc = match diagnostic.location() {
        Some(l) => l,
        None => return None,
    };
    let ghost v = items@;
    let ghost file = loc.file@;
    let line = loc.line_start;
    let entries = items.iter();
    let mut best: Option<(usize, usize, usize)> = None;
    let mut i: usize = 0;
    while i < entries.len()
        invariant
            v == items@,
            file == loc.file@,
            entries@.len() == v.len(),
            forall|k: int|
                0 <= k < entries@.len() ==> (#[trigger] entries@[k]).0@ == v[k].0 && item_views(
                    entries@[k].1@,
                ) == v[k].1,
            i <= entries@.len(),
            match best {
                None => forall|a: int, b: int| a < i ==> !near_at(v, file, a, b),
                Some((bi, bj, bd)) => {
                    &&& bi < i
                    &&& near_at(v, file, bi as int, bj as int)
                    &&& bd as int == distance_at(v, line as int, bi as int, bj as int)
                    &&& forall|a: int, b: int|
                        #![trigger near_at(v, file, a, b)]
                        a < i && near_at(v, file, a, b) ==> bd <= distance_at(v, line as int, a, b)
                    &&& forall|a: int, b: int|
                        #![trigger near_at(v, file, a, b)]
                        near_at(v, file, a, b) && walked_before(a, b, bi as int, bj as int) ==> bd
                            < distance_at(v, line as int, a, b)
                },
            },
        decreases entries@.len() - i,
    {
        let (path, its) = entries[i];
        if crate::path::paths_equal(loc.file, path) {
            let mut j: usize = 0;
            while j < its.len()
                invariant
                    v == items@,
                    file == loc.file@,
                    entries@.len() == v.len(),
                    i < entries@.len(),
                    path@ == v[i as int].0,
                    same_path(file, path@),
                    item_views(its@) == v[i as int].1,
                    j <= its@.len(),
                    match best {
                        None => forall|a: int, b: int|
                            walked_before(a, b, i as int, j as int) ==> !near_at(v, file, a, b),
                        Some((bi, bj, bd)) => {
                            &&& walked_before(bi as int, bj as int, i as int, j as int)
                            &&& near_at(v, file, bi as int, bj as int)
                            &&& bd as int == distance_at(v, line as int, bi as int, bj as int)
                            &&& forall|a: int, b: int|
                                #![trigger near_at(v, file, a, b)]
                                walked_before(a, b, i as int, j as int) && near_at(v, file, a, b)
                                    ==> bd <= distance_at(v, line as int, a, b)
                            &&& forall|a: int, b: int|
                                #![trigger near_at(v, file, a, b)]
                                near_at(v, file, a, b) && walked_before(a, b, bi as int, bj as int)
                                    ==> bd < distance_at(v, line as int, a, b)
                        },
                    },
                decreases its@.len() - j,
            {
                let it: &Item = &its[j];
                proof {
                    assert(v[i as int].1[j as int] == it@);
                }
                if it.derives_unused().len() > 0 {
                    let at = it.lineno_sandbox();
                    let dist: usize = if at >= line {
                        at - line
                    } else {
                        line - at
                    };
                    proof {
                        assert(near_at(v, file, i as int, j as int));
                        assert(dist as int == distance_at(v, line as int, i as int, j as int));
                    }
                    let closer = match best {
                        None => true,
                        Some((_, _, bd)) => dist < bd,
                    };
                    if closer {
                        best = Some((i, j, dist));
                    }
                } else {
                    proof {
                        assert(!near_at(v, file, i as int, j as int));
                    }
                }
                j = j + 1;
            }
        } else {
            proof {
                assert forall|b: int| !near_at(v, file, i as int, b) by {}
            }
        }
        i = i + 1;
    }
    let r = match best {
        Some((bi, bj, _)) => Some((bi, bj)),
        None => None,
    };
    proof {
        lemma_nearest(v, file, line as int, as_pair(r));
        law_nearest_by_sandbox_line(v, file, line as int);
        if r is None {
            assert forall|a: int, b: int|
                #![trigger v[a].1[b]]
                !(pending_at(v, a, b) && same_path(file, v[a].0)) by {
                if pending_at(v, a, b) && same_path(file, v[a].0) {
                    assert(near_at(v, file, a, b));
                }
            }
        }
    }
    r
}

// ---------------------------------------------------------------------------
// Picking by the source lines a diagnostic points at
// ---------------------------------------------------------------------------

/// The lines of `s` (as `str::lines` splits them, apart from keeping a
/// carriage return before a newline, which no identifier contains).
pub open spec fn text_lines(s: Seq<char>) -> Seq<Seq<char>> {
    let pieces = split_by(s, Separator::Is('\n'));
    if pieces.len() > 0 && pieces.last().len() == 0 {
        pieces.drop_last()
    } else {
        pieces
    }
}

/// The pieces that start with an ASCII uppercase letter, in order.
pub open spec fn upper_words(pieces: Seq<Seq<char>>) -> Seq<Seq<char>>
    decreases pieces.len(),
{
    if pieces.len() == 0 {
        pieces
    } else {
        let rest = upper_words(pieces.drop_last());
        let w = pieces.last();
        if w.len() > 0 && is_ascii_upper(w[0]) {
            rest.push(w)
        } else {
            rest
        }
    }
}

/// The uppercase-leading identifiers of each line, line after line.
pub open spec fn words_of_lines(lines: Seq<Seq<char>>) -> Seq<Seq<char>>
    decreases lines.len(),
{
    if lines.len() == 0 {
        Seq::empty()
    } else {
        words_of_lines(lines.drop_last()) + upper_words(
            split_by(lines.last(), Separator::NonIdentChar),
        )
    }
}

/// The type-name candidates on lines `line_start..=line_end` (counted from
/// 1) of `source`: every identifier there that starts with an uppercase
/// letter.
pub open spec fn peek_candidates(source: Seq<char>, line_start: int, line_end: int) -> Seq<
    Seq<char>,
> {
    let lines = text_lines(source);
    let start = if line_start >= 1 {
        line_start - 1
    } else {
        0
    };
    let end = if line_end <= lines.len() {
        line_end
    } else {
        lines.len() as int
    };
    if start >= end {
        Seq::empty()
    } else {
        words_of_lines(lines.subrange(start, end))
    }
}

/// Type-name candidates from the source lines a diagnostic spans
/// ([`peek_candidates`]). Catches errors whose text names only an outer
/// type, such as `Handler<S>`, while the line names `Query<HandlerParams>`.
pub fn source_peek_candidates(source: &str, line_start: usize, line_end: usize) -> (r: Vec<String>)
    ensures
        strs(r@) == peek_candidates(source@, line_start as int, line_end as int),
{
    let chars = chars_of(source);
    let mut lines = split(chars.as_slice(), Separator::Is('\n'));
    proof {
        lemma_split_by_nonempty(chars@, Separator::Is('\n'));
    }
    let n = lines.len();
    if lines[n - 1].len() == 0 {
        lines.pop();
        proof {
            assert(views(lines@) =~= split_by(chars@, Separator::Is('\n')).drop_last());
        }
    }
    let ghost ls = views(lines@);
    assert(ls == text_lines(source@));
    let start: usize = if line_start >= 1 {
        line_start - 1
    } else {
        0
    };
    let end: usize = if line_end <= lines.len() {
        line_end
    } else {
        lines.len()
    };
    let mut result: Vec<String> = Vec::new();
    if start >= end {
        return result;
    }
    let mut k: usize = start;
    assert(ls.subrange(start as int, start as int) =~= Seq::<Seq<char>>::empty());
    while k < end
        invariant
            ls == views(lines@),
            start <= k <= end,
            end <= lines@.len(),
            strs(result@) == words_of_lines(ls.subrange(start as int, k as int)),
        decreases end - k,
    {
        let words = split(lines[k].as_slice(), Separator::NonIdentChar);
        let ghost ws = views(words@);
        let ghost before = strs(result@);
        let mut m: usize = 0;
        assert(ws.take(0) =~= Seq::<Seq<char>>::empty());
        while m < words.len()
            invariant
                ws == views(words@),
                m <= words@.len(),
                strs(result@) == before + upper_words(ws.take(m as int)),
            decreases words@.len() - m,
        {
            let w = &words[m];
            proof {
                assert(ws.take(m as int + 1).drop_last() =~= ws.take(m as int));
                assert(ws.take(m as int + 1).last() == w@);
            }
            if w.len() > 0 && ascii_upper(w[0]) {
                let word = string_of(w.as_slice());
                let ghost prev = result@;
                result.push(word);
                proof {
                    assert(strs(result@) =~= strs(prev).push(w@));
                    assert(before + upper_words(ws.take(m as int)).push(w@) =~= (before + upper_words(ws.take(m as int))).push(w@));
                }
            }
            m = m + 1;
        }
        proof {
            assert(ws.take(words@.len() as int) =~= ws);
            let sub = ls.subrange(start as int, k as int + 1);
            assert(sub.drop_last() =~= ls.subrange(start as int, k as int));
            assert(sub.last() == lines@[k as int]@);
        }
        k = k + 1;
    }
    result
}

// ---------------------------------------------------------------------------
// Finding the item a diagnostic is about
// ---------------------------------------------------------------------------

/// The item a diagnostic is tied to, trying in turn: the type names in its
/// text, the type names on the source lines it points at (`source` is the
/// text of the file it points at, when that could be read), and the
/// pending item of its file nearest to it.
pub open spec fn pick(v: Seq<EntryView>, d: Diagnostic, source: Option<Seq<char>>) -> Option<(int, int)> {
    match best_named(v, d, item_names_in(d.text())) {
        Some(p) => Some(p),
        None => match loc_span(d) {
            None => None,
            Some(s) => {
                let peeked = match source {
                    Some(src) => peek_candidates(src, s.line_start as int, s.line_end as int),
                    None => Seq::empty(),
                };
                match best_named(v, d, peeked) {
                    Some(p) => Some(p),
                    None => nearest(v, s.file_name, s.line_start as int),
                }
            },
        },
    }
}

/// The characters of an optional string.
pub open spec fn opt_chars(o: Option<&str>) -> Option<Seq<char>> {
    match o {
        Some(s) => Some(s@),
        None => None,
    }
}

/// Picks by the type names in the diagnostic's text.
pub fn pick_by_text_names(items: &Items, diagnostic: &Diagnostic) -> (r: Option<(usize, usize)>)
    requires
        items.wf(),
    ensures
        as_pair(r) == best_named(items@, *diagnostic, item_names_in(diagnostic.text())),
{
    let names = diagnostic.item_names();
    assert(strs(names@) =~= item_names_in(diagnostic.text()));
    let r = if names.len() == 0 {
        None
    } else {
        pick_by_name(items, diagnostic, names.as_slice())
    };
    proof {
        lemma_best_named(items@, *diagnostic, strs(names@), as_pair(r));
    }
    r
}

/// Picks by the type names on the source lines the diagnostic points at;
/// `source` is the text of the file it points at.
pub fn pick_by_source_peek(items: &Items, diagnostic: &Diagnostic, source: Option<&str>) -> (r:
    Option<(usize, usize)>)
    requires
        items.wf(),
    ensures
        as_pair(r) == match loc_span(*diagnostic) {
            None => None,
            Some(s) => best_named(
                items@,
                *diagnostic,
                match opt_chars(source) {
                    Some(src) => peek_candidates(src, s.line_start as int, s.line_end as int),
                    None => Seq::empty(),
                },
            ),
        },
{
    let loc = match diagnostic.location() {
        Some(l) => l,
        None => return None,
    };
    let candidates = match source {
        Some(src) => source_peek_candidates(src, loc.line_start, loc.line_end),
        None => Vec::new(),
    };
    let r = if candidates.len() == 0 {
        None
    } else {
        pick_by_name(items, diagnostic, candidates.as_slice())
    };
    proof {
        assert(strs(candidates@) =~= match opt_chars(source) {
            Some(src) => peek_candidates(src, loc.line_start as int, loc.line_end as int),
            None => Seq::empty(),
        });
        lemma_best_named(items@, *diagnostic, strs(candidates@), as_pair(r));
    }
    r
}

/// The item a diagnostic is tied to ([`pick`]), as (file index, item
/// index).
pub fn find_item_for_diagnostic(items: &Items, diagnostic: &Diagnostic, source: Option<&str>) -> (r:
    Option<(usize, usize)>)
    requires
        items.wf(),
    ensures
        as_pair(r) == pick(items@, *diagnostic, opt_chars(source)),
        match r {
            Some((i, j)) => i < items@.len() && j < items@[i as int].1.len(),
            None => true,
        },
{
    let by_text = pick_by_text_names(items, diagnostic);
    let r = if by_text.is_some() {
        by_text
    } else {
        let by_peek = pick_by_source_peek(items, diagnostic, source);
        if by_peek.is_some() {
            by_peek
        } else {
            pick_by_span_proximity(items, diagnostic)
        }
    };
    proof {
        let v = items@;
        let d = *diagnostic;
        match best_named(v, d, item_names_in(d.text())) {
            Some(p) => {
                let q = choose|i: int, j: int| best_named_at(v, d, item_names_in(d.text()), i, j);
                assert(best_named_at(v, d, item_names_in(d.text()), q.0, q.1));
            },
            None => {
                match loc_span(d) {
                    None => {},
                    Some(s) => {
                        let peeked = match opt_chars(source) {
                            Some(src) => peek_candidates(src, s.line_start as int, s.line_end as int),
                            None => Seq::empty(),
                        };
                        match best_named(v, d, peeked) {
                            Some(p) => {
                                let q = choose|i: int, j: int| best_named_at(v, d, peeked, i, j);
                                assert(best_named_at(v, d, peeked, q.0, q.1));
                            },
                            None => {
                                match nearest(v, s.file_name, s.line_start as int) {
                                    Some(p) => {
                                        let q = choose|i: int, j: int| nearest_at(v, s.file_name, s.line_start as int, i, j);
                                        assert(nearest_at(v, s.file_name, s.line_start as int, q.0, q.1));
                                    },
                                    None => {},
                                }
                            },
                        }
                    },
                }
            },
        }
    }
    r
}

// ---------------------------------------------------------------------------
// Which derives to restore
// ---------------------------------------------------------------------------

/// Index of the first of `derives` that `text` mentions; the length when
/// none is.
pub open spec fn first_mention(derives: Seq<Seq<char>>, text: Seq<char>) -> int
    decreases derives.len(),
{
    if derives.len() == 0 {
        0
    } else if derive_mentioned(derives[0], text) {
        0
    } else {
        1 + first_mention(derives.drop_first(), text)
    }
}

pub proof fn lemma_first_mention(derives: Seq<Seq<char>>, text: Seq<char>)
    ensures
        0 <= first_mention(derives, text) <= derives.len(),
        forall|k: int|
            0 <= k < first_mention(derives, text) ==> !derive_mentioned(#[trigger] derives[k], text),
        first_mention(derives, text) < derives.len() ==> derive_mentioned(
            derives[first_mention(derives, text)],
            text,
        ),
        mentions_any(derives, text) <==> first_mention(derives, text) < derives.len(),
    decreases derives.len(),
{
    if derives.len() > 0 && !derive_mentioned(derives[0], text) {
        let rest = derives.drop_first();
        lemma_first_mention(rest, text);
        assert forall|k: int| 0 <= k < first_mention(derives, text) implies !derive_mentioned(
            #[trigger] derives[k],
            text,
        ) by {
            if k > 0 {
                assert(derives[k] == rest[k - 1]);
            }
        }
        if mentions_any(derives, text) {
            let k = choose|k: int| 0 <= k < derives.len() && derive_mentioned(#[trigger] derives[k], text);
            assert(rest[k - 1] == derives[k]);
        }
        if first_mention(derives, text) < derives.len() {
            let f = first_mention(derives, text);
            assert(derives[f] == rest[f - 1]);
        }
    }
}

/// The item with `unused` as its pending derives.
pub open spec fn with_pending(it: ItemView, unused: Seq<Seq<char>>) -> ItemView {
    ItemView {
        name: it.name,
        lineno_source: it.lineno_source,
        lineno_sandbox: it.lineno_sandbox,
        original: it.original,
        unused,
    }
}

/// What stays pending of `it` once the derives a diagnostic with this
/// `text` calls for are restored: none when only one was pending; all but
/// the first pending one the text mentions; and, when the text mentions
/// none, none in lenient mode and, in strict mode, `None`: the derive cannot
/// be pinpointed.
pub open spec fn left_pending(it: ItemView, text: Seq<char>, strict: bool) -> Option<Seq<Seq<char>>> {
    if it.unused.len() == 1 {
        Some(Seq::empty())
    } else if mentions_any(it.unused, text) {
        Some(without(it.unused, it.unused[first_mention(it.unused, text)]))
    } else if strict {
        None
    } else {
        Some(Seq::empty())
    }
}

/// The note left when strict mode cannot pinpoint the missing derive.
pub open spec fn unpinned_message(it: ItemView, message: Seq<char>) -> Seq<char> {
    "could not pinpoint missing derive for `"@ + it.name + "` (pending: "@ + join_with(
        it.unused,
        ", "@,
    ) + "): "@ + message
}

/// `s` without any of `ds`, removed one after the other.
pub open spec fn without_all(s: Seq<Seq<char>>, ds: Seq<Seq<char>>) -> Seq<Seq<char>>
    decreases ds.len(),
{
    if ds.len() == 0 {
        s
    } else {
        without(without_all(s, ds.drop_last()), ds.last())
    }
}

pub proof fn lemma_without_all_contains(s: Seq<Seq<char>>, ds: Seq<Seq<char>>, y: Seq<char>)
    ensures
        without_all(s, ds).contains(y) <==> (s.contains(y) && !ds.contains(y)),
    decreases ds.len(),
{
    if ds.len() > 0 {
        lemma_without_all_contains(s, ds.drop_last(), y);
        lemma_without_contains(without_all(s, ds.drop_last()), ds.last(), y);
        if ds.contains(y) && y != ds.last() {
            let k = choose|k: int| 0 <= k < ds.len() && ds[k] == y;
            assert(ds.drop_last()[k] == y);
        }
        if ds.drop_last().contains(y) {
            let k = choose|k: int| 0 <= k < ds.drop_last().len() && ds.drop_last()[k] == y;
            assert(ds[k] == y);
        }
        if y == ds.last() {
            assert(ds[ds.len() - 1] == y);
        }
    }
}

pub proof fn lemma_without_all_self(s: Seq<Seq<char>>)
    ensures
        without_all(s, s) == Seq::<Seq<char>>::empty(),
{
    let w = without_all(s, s);
    if w.len() > 0 {
        lemma_without_all_contains(s, s, w[0]);
        assert(w.contains(w[0]));
    }
    assert(w =~= Seq::<Seq<char>>::empty());
}

// ---------------------------------------------------------------------------
// The files and lines a pass touched
// ---------------------------------------------------------------------------

/// Per touched file, the sandbox lines of the items to rewrite.
pub type Touched = Seq<(Seq<char>, Seq<usize>)>;

/// Index of the entry for `path`, if there is one.
pub open spec fn key_index(t: Touched, path: Seq<char>) -> Option<int>
    decreases t.len(),
{
    if t.len() == 0 {
        None
    } else {
        match key_index(t.drop_last(), path) {
            Some(k) => Some(k),
            None => if t.last().0 == path {
                Some(t.len() - 1)
            } else {
                None
            },
        }
    }
}

pub proof fn lemma_key_index(t: Touched, path: Seq<char>)
    ensures
        match key_index(t, path) {
            Some(k) => 0 <= k < t.len() && t[k].0 == path && forall|m: int|
                0 <= m < k ==> (#[trigger] t[m]).0 != path,
            None => forall|m: int| 0 <= m < t.len() ==> (#[trigger] t[m]).0 != path,
        },
    decreases t.len(),
{
    if t.len() > 0 {
        lemma_key_index(t.drop_last(), path);
        assert forall|m: int| 0 <= m < t.len() - 1 implies #[trigger] t[m] == t.drop_last()[m] by {}
    }
}

/// `lines` with `line` added at the end unless it is already there.
pub open spec fn with_line(lines: Seq<usize>, line: usize) -> Seq<usize> {
    if lines.contains(line) {
        lines
    } else {
        lines.push(line)
    }
}

/// Records that the item on `line` of `path` is to be rewritten.
pub open spec fn touch(t: Touched, path: Seq<char>, line: usize) -> Touched {
    match key_index(t, path) {
        Some(k) => t.update(k, (path, with_line(t[k].1, line))),
        None => t.push((path, seq![line])),
    }
}

/// What a pass of [`fix_diagnostics`] has done so far.
pub struct FixView {
    pub entries: Seq<EntryView>,
    pub unresolved: Seq<Seq<char>>,
    pub touched: Touched,
    pub warnings: Seq<Seq<char>>,
}

/// Lenient mode cannot tell which pending derive of `it` the diagnostic
/// calls for, and restores them all.
pub open spec fn guessed(it: ItemView, text: Seq<char>, strict: bool) -> bool {
    !strict && it.unused.len() != 1 && !mentions_any(it.unused, text)
}

/// The warning given when lenient mode restores all of an item's pending
/// derives.
pub open spec fn guess_warning(it: ItemView) -> Seq<char> {
    "could not pinpoint the missing derive for `"@ + it.name + "`; restoring all of ["@ + join_with(
        it.unused,
        ", "@,
    ) + "] \u{2014} some of these may not actually be needed"@
}

/// One diagnostic handled: the item it is tied to has the derives it calls
/// for restored and its line recorded as touched, with a warning when
/// lenient mode had to restore them all; a diagnostic tied to no item, or
/// whose derive strict mode cannot pinpoint, is noted as unresolved.
pub open spec fn fix_step(s: FixView, d: Diagnostic, source: Option<Seq<char>>, strict: bool) -> FixView {
    match pick(s.entries, d, source) {
        None => FixView {
            entries: s.entries,
            unresolved: s.unresolved.push(d.report().message),
            touched: s.touched,
            warnings: s.warnings,
        },
        Some(p) => {
            let it = s.entries[p.0].1[p.1];
            match left_pending(it, d.text(), strict) {
                None => FixView {
                    entries: s.entries,
                    unresolved: s.unresolved.push(unpinned_message(it, d.report().message)),
                    touched: s.touched,
                    warnings: s.warnings,
                },
                Some(u) => FixView {
                    entries: with_item(s.entries, p.0, p.1, with_pending(it, u)),
                    unresolved: s.unresolved,
                    touched: touch(s.touched, s.entries[p.0].0, it.lineno_sandbox),
                    warnings: if guessed(it, d.text(), strict) {
                        s.warnings.push(guess_warning(it))
                    } else {
                        s.warnings
                    },
                },
            }
        },
    }
}

/// The source text handed along with the `k`-th diagnostic, if any.
pub open spec fn source_at(sources: Seq<Option<Seq<char>>>, k: int) -> Option<Seq<char>> {
    if 0 <= k < sources.len() {
        sources[k]
    } else {
        None
    }
}

/// The diagnostics handled one after the other.
pub open spec fn fix_all(
    s: FixView,
    ds: Seq<Diagnostic>,
    sources: Seq<Option<Seq<char>>>,
    strict: bool,
) -> FixView
    decreases ds.len(),
{
    if ds.len() == 0 {
        s
    } else {
        fix_step(
            fix_all(s, ds.drop_last(), sources, strict),
            ds.last(),
            source_at(sources, ds.len() - 1),
            strict,
        )
    }
}

/// The characters of optional strings.
pub open spec fn source_views(sources: Seq<Option<String>>) -> Seq<Option<Seq<char>>> {
    sources.map_values(
        |o: Option<String>|
            match o {
                Some(s) => Some(s@),
                None => None,
            },
    )
}

/// The touched files and lines, as characters and numbers.
pub open spec fn touched_view(t: Seq<(String, Vec<usize>)>) -> Touched {
    t.map_values(|e: (String, Vec<usize>)| (e.0@, e.1@))
}

/// What one pass of [`fix_diagnostics`] did.
pub struct FixOutcome {
    /// The diagnostics that could not be acted on.
    pub unresolved: Vec<String>,
    /// Per file, the sandbox lines of the items whose derive slot must be
    /// rewritten.
    pub touched: Vec<(String, Vec<usize>)>,
    /// Some derive was restored.
    pub progressed: bool,
    /// Warnings for the items whose pending derives were all restored for
    /// want of knowing which one was needed.
    pub warnings: Vec<String>,
}

fn contains_line(lines: &Vec<usize>, line: usize) -> (r: bool)
    ensures
        r == lines@.contains(line),
{
    let mut k: usize = 0;
    while k < lines.len()
        invariant
            k <= lines@.len(),
            forall|m: int| 0 <= m < k ==> lines@[m] != line,
        decreases lines@.len() - k,
    {
        if lines[k] == line {
            return true;
        }
        k = k + 1;
    }
    false
}

fn touch_line(touched: &mut Vec<(String, Vec<usize>)>, path: String, line: usize)
    ensures
        touched_view(final(touched)@) == touch(touched_view(old(touched)@), path@, line),
{
    let ghost t = touched_view(touched@);
    proof {
        lemma_key_index(t, path@);
    }
    let mut k: usize = 0;
    while k < touched.len()
        invariant
            t == touched_view(touched@),
            t == touched_view(old(touched)@),
            k <= touched@.len(),
            forall|m: int| 0 <= m < k ==> (#[trigger] t[m]).0 != path@,
        decreases touched@.len() - k,
    {
        if touched[k].0 == path {
            proof {
                assert(t[k as int].0 == path@);
                lemma_key_index(t, path@);
                match key_index(t, path@) {
                    Some(q) => {
                        if q < k {
                            assert(t[q].0 != path@);
                        }
                        if q > k {
                            assert(t[k as int].0 != path@);
                        }
                    },
                    None => {
                        assert(t[k as int].0 != path@);
                    },
                }
            }
            let (p, mut lines) = touched.remove(k);
            if !contains_line(&lines, line) {
                lines.push(line);
            }
            touched.insert(k, (p, lines));
            proof {
                assert(touched_view(touched@) =~= t.update(k as int, (path@, with_line(t[k as int].1, line))));
            }
            return;
        }
        k = k + 1;
    }
    let mut lines: Vec<usize> = Vec::new();
    lines.push(line);
    touched.push((path, lines));
    proof {
        lemma_key_index(t, path@);
        assert(key_index(t, path@) is None) by {
            match key_index(t, path@) {
                Some(q) => {
                    assert(t[q].0 != path@);
                },
                None => {},
            }
        }
        assert(touched_view(touched@) =~= t.push((path@, seq![line])));
    }
}

/// Copies the strings of `xs`.
fn owned_strings(xs: &[String]) -> (r: Vec<String>)
    ensures
        strs(r@) == strs(xs@),
{
    let mut r: Vec<String> = Vec::new();
    let mut k: usize = 0;
    while k < xs.len()
        invariant
            k <= xs@.len(),
            strs(r@) == strs(xs@).take(k as int),
        decreases xs@.len() - k,
    {
        let x = xs[k].clone();
        proof {
            lemma_strs_push(r@, x);
            assert(strs(xs@).take(k as int + 1) =~= strs(xs@).take(k as int).push(xs@[k as int]@));
        }
        r.push(x);
        k = k + 1;
    }
    proof {
        assert(strs(xs@).take(xs@.len() as int) =~= strs(xs@));
    }
    r
}

/// The note for a diagnostic whose missing derive strict mode cannot
/// pinpoint.
fn unpinned_note(name: &str, pending: &[String], message: &str) -> (r: String)
    ensures
        r@ == "could not pinpoint missing derive for `"@ + name@ + "` (pending: "@ + join_with(
            strs(pending@),
            ", "@,
        ) + "): "@ + message@,
{
    let mut out: Vec<char> = chars_of("could not pinpoint missing derive for `");
    let name_chars = chars_of(name);
    push_all(&mut out, name_chars.as_slice());
    let middle = chars_of("` (pending: ");
    push_all(&mut out, middle.as_slice());
    let sep = chars_of(", ");
    push_joined(&mut out, pending, sep.as_slice());
    let tail = chars_of("): ");
    push_all(&mut out, tail.as_slice());
    let message_chars = chars_of(message);
    push_all(&mut out, message_chars.as_slice());
    proof {
        assert(pending@.map_values(|s: String| s@) =~= strs(pending@));
    }
    string_of(out.as_slice())
}

/// The warning for restoring every pending derive of an item.
fn guess_note(name: &str, pending: &[String]) -> (r: String)
    ensures
        r@ == "could not pinpoint the missing derive for `"@ + name@ + "`; restoring all of ["@
            + join_with(strs(pending@), ", "@) + "] \u{2014} some of these may not actually be needed"@,
{
    let mut out: Vec<char> = chars_of("could not pinpoint the missing derive for `");
    let name_chars = chars_of(name);
    push_all(&mut out, name_chars.as_slice());
    let middle = chars_of("`; restoring all of [");
    push_all(&mut out, middle.as_slice());
    let sep = chars_of(", ");
    push_joined(&mut out, pending, sep.as_slice());
    let tail = chars_of("] \u{2014} some of these may not actually be needed");
    push_all(&mut out, tail.as_slice());
    proof {
        assert(pending@.map_values(|s: String| s@) =~= strs(pending@));
    }
    string_of(out.as_slice())
}

/// Marks every derive of `pending` restored on the `j`-th item of the `i`-th
/// file, where `pending` is what that item has pending.
fn restore_all(items: &mut Items, i: usize, j: usize, pending: &Vec<String>)
    requires
        old(items).wf(),
        i < old(items)@.len(),
        j < old(items)@[i as int].1.len(),
        strs(pending@) == old(items)@[i as int].1[j as int].unused,
    ensures
        final(items).wf(),
        final(items)@ == with_item(
            old(items)@,
            i as int,
            j as int,
            with_pending(old(items)@[i as int].1[j as int], Seq::empty()),
        ),
{
    let ghost v = items@;
    let ghost it = v[i as int].1[j as int];
    let ghost u = it.unused;
    let mut m: usize = 0;
    proof {
        assert(u.take(0) =~= Seq::<Seq<char>>::empty());
        assert(with_pending(it, u) == it);
        assert(v =~= with_item(v, i as int, j as int, it)) by {
            assert(v[i as int].1 =~= v[i as int].1.update(j as int, it));
        }
    }
    while m < pending.len()
        invariant
            items.wf(),
            i < v.len(),
            j < v[i as int].1.len(),
            it == v[i as int].1[j as int],
            u == it.unused,
            strs(pending@) == u,
            m <= pending@.len(),
            items@ == with_item(v, i as int, j as int, with_pending(it, without_all(u, u.take(m as int)))),
        decreases pending@.len() - m,
    {
        let ghost before = items@;
        let ghost w = without_all(u, u.take(m as int));
        items.mark_restored_at(i, j, pending[m].as_str());
        proof {
            assert(u.take(m as int + 1).drop_last() =~= u.take(m as int));
            assert(u.take(m as int + 1).last() == pending@[m as int]@);
            assert(before[i as int].1[j as int] == with_pending(it, w));
            assert(items@ =~= with_item(v, i as int, j as int, with_pending(it, without(w, pending@[m as int]@)))) by {
                assert(items@[i as int].1 =~= v[i as int].1.update(j as int, with_pending(it, without(w, pending@[m as int]@))));
            }
        }
        m = m + 1;
    }
    proof {
        assert(u.take(pending@.len() as int) =~= u);
        lemma_without_all_self(u);
    }
}

/// A pass that has done nothing yet.
pub open spec fn fresh_pass(v: Seq<EntryView>) -> FixView {
    FixView { entries: v, unresolved: Seq::empty(), touched: Seq::empty(), warnings: Seq::empty() }
}

/// One restore pass over the diagnostics of a `cargo check` run
/// ([`fix_all`]): each diagnostic is tied to an item
/// ([`find_item_for_diagnostic`]; `sources[k]` is the text of the file the
/// `k`-th diagnostic points at, when it could be read), the item has the
/// derives that the diagnostic calls for marked restored ([`left_pending`]),
/// and its sandbox line is recorded so that its derive slot is rewritten.
/// The pass made progress when it touched a line.
pub fn fix_diagnostics(
    items: &mut Items,
    diagnostics: &[Diagnostic],
    sources: &[Option<String>],
    strict: bool,
) -> (r: FixOutcome)
    requires
        old(items).wf(),
    ensures
        final(items).wf(),
        final(items)@ == fix_all(fresh_pass(old(items)@), diagnostics@, source_views(sources@), strict).entries,
        strs(r.unresolved@) == fix_all(
            fresh_pass(old(items)@),
            diagnostics@,
            source_views(sources@),
            strict,
        ).unresolved,
        touched_view(r.touched@) == fix_all(
            fresh_pass(old(items)@),
            diagnostics@,
            source_views(sources@),
            strict,
        ).touched,
        r.progressed == (fix_all(
            fresh_pass(old(items)@),
            diagnostics@,
            source_views(sources@),
            strict,
        ).touched.len() > 0),
        strs(r.warnings@) == fix_all(
            fresh_pass(old(items)@),
            diagnostics@,
            source_views(sources@),
            strict,
        ).warnings,
{
    let ghost v0 = items@;
    let ghost sv = source_views(sources@);
    let mut unresolved: Vec<String> = Vec::new();
    let mut touched: Vec<(String, Vec<usize>)> = Vec::new();
    let mut warnings: Vec<String> = Vec::new();
    let mut k: usize = 0;
    proof {
        assert(strs(warnings@) =~= Seq::<Seq<char>>::empty());
        assert(diagnostics@.take(0) =~= Seq::<Diagnostic>::empty());
        assert(strs(unresolved@) =~= Seq::<Seq<char>>::empty());
        assert(touched_view(touched@) =~= Seq::<(Seq<char>, Seq<usize>)>::empty());
    }
    while k < diagnostics.len()
        invariant
            items.wf(),
            sv == source_views(sources@),
            k <= diagnostics@.len(),
            items@ == fix_all(fresh_pass(v0), diagnostics@.take(k as int), sv, strict).entries,
            strs(unresolved@) == fix_all(fresh_pass(v0), diagnostics@.take(k as int), sv, strict).unresolved,
            touched_view(touched@) == fix_all(fresh_pass(v0), diagnostics@.take(k as int), sv, strict).touched,
            strs(warnings@) == fix_all(fresh_pass(v0), diagnostics@.take(k as int), sv, strict).warnings,
        decreases diagnostics@.len() - k,
    {
        let d = &diagnostics[k];
        let source: Option<&str> = if k < sources.len() {
            match &sources[k] {
                Some(text) => Some(text.as_str()),
                None => None,
            }
        } else {
            None
        };
        let ghost st = fix_all(fresh_pass(v0), diagnostics@.take(k as int), sv, strict);
        proof {
            assert(opt_chars(source) == source_at(sv, k as int));
            assert(diagnostics@.take(k as int + 1).drop_last() =~= diagnostics@.take(k as int));
            assert(diagnostics@.take(k as int + 1).last() == *d);
        }
        match find_item_for_diagnostic(items, d, source) {
            None => {
                let msg = d.message().to_owned();
                let ghost prev = unresolved@;
                unresolved.push(msg);
                proof {
                    lemma_strs_push(prev, msg);
                }
            },
            Some((i, j)) => {
                let ghost it = items@[i as int].1[j as int];
                let (path_ref, item) = items.item_at(i, j);
                let path = path_ref.to_owned();
                let name = item.name().to_owned();
                let lineno = item.lineno_sandbox();
                let pending = owned_strings(item.derives_unused());
                proof {
                    lemma_first_mention(it.unused, d.text());
                }
                if pending.len() == 1 {
                    restore_all(items, i, j, &pending);
                    touch_line(&mut touched, path, lineno);
                } else {
                    match d.references_derive(pending.as_slice()) {
                        Some(x) => {
                            proof {
                                let q = choose|q: int|
                                    0 <= q < pending@.len() && x@ == pending@[q]@ && derive_mentioned(
                                        pending@[q]@,
                                        d.text(),
                                    ) && forall|m: int|
                                        0 <= m < q ==> !derive_mentioned(
                                            #[trigger] pending@[m]@,
                                            d.text(),
                                        );
                                assert(strs(pending@)[q] == pending@[q]@);
                                assert(mentions_any(it.unused, d.text()));
                                let f = first_mention(it.unused, d.text());
                                if f < q {
                                    assert(strs(pending@)[f] == pending@[f]@);
                                }
                                assert(f == q);
                            }
                            items.mark_restored_at(i, j, x);
                            touch_line(&mut touched, path, lineno);
                        },
                        None => {
                            proof {
                                assert forall|q: int| 0 <= q < it.unused.len() implies !derive_mentioned(
                                    #[trigger] it.unused[q],
                                    d.text(),
                                ) by {
                                    assert(strs(pending@)[q] == pending@[q]@);
                                }
                            }
                            if strict {
                                let note = unpinned_note(name.as_str(), pending.as_slice(), d.message());
                                let ghost prev = unresolved@;
                                unresolved.push(note);
                                proof {
                                    lemma_strs_push(prev, note);
                                }
                            } else {
                                let note = guess_note(name.as_str(), pending.as_slice());
                                let ghost prev = warnings@;
                                warnings.push(note);
                                proof {
                                    lemma_strs_push(prev, note);
                                }
                                restore_all(items, i, j, &pending);
                                touch_line(&mut touched, path, lineno);
                            }
                        },
                    }
                }
            },
        }
        k = k + 1;
    }
    proof {
        assert(diagnostics@.take(diagnostics@.len() as int) =~= diagnostics@);
    }
    let progressed = touched.len() > 0;
    FixOutcome { unresolved, touched, progressed, warnings }
}

// ---------------------------------------------------------------------------
// The loop around the passes
// ---------------------------------------------------------------------------

/// How many `cargo check` runs the restore loop makes at most.
pub const MAX_RESTORE_ATTEMPTS: usize = 64;

/// What the restore loop does after a pass that had diagnostics to fix.
pub enum NextStep {
    /// Run `cargo check` again.
    CheckAgain,
    /// Stop, leaving these diagnostics unresolved.
    Finish(Vec<String>),
}

/// The restore loop's decision after a `cargo check` run: when it reported
/// no error, restoring is done and nothing is left unresolved; otherwise a
/// fix pass follows (`None`).
pub fn after_check(diagnostics: &[Diagnostic]) -> (r: Option<NextStep>)
    ensures
        diagnostics@.len() == 0 ==> (r matches Some(NextStep::Finish(u)) && u@.len() == 0),
        diagnostics@.len() > 0 ==> r is None,
{
    if diagnostics.len() == 0 {
        Some(NextStep::Finish(Vec::new()))
    } else {
        None
    }
}

/// The restore loop's decision after its `attempt`-th pass (counted from
/// 1). A pass that restored nothing would see the same diagnostics again:
/// strict mode fails, lenient mode stops with what is unresolved. After the
/// last allowed attempt strict mode fails and lenient mode stops. Otherwise
/// the loop checks again.
pub fn after_pass(attempt: usize, unresolved: Vec<String>, progressed: bool, strict: bool) -> (r:
    Result<NextStep, ToolError>)
    ensures
        !progressed && strict ==> (r matches Err(ToolError::RestoreNoProgress { unresolved: u })
            && u@ == unresolved@),
        !progressed && !strict ==> (r matches Ok(NextStep::Finish(u)) && u@ == unresolved@),
        progressed && attempt < MAX_RESTORE_ATTEMPTS ==> (r matches Ok(NextStep::CheckAgain)),
        progressed && attempt >= MAX_RESTORE_ATTEMPTS && strict ==> (r matches Err(
            ToolError::UnableToRestore { max_attempts: m, unresolved: u },
        ) && m == MAX_RESTORE_ATTEMPTS && u@ == unresolved@),
        progressed && attempt >= MAX_RESTORE_ATTEMPTS && !strict ==> (r matches Ok(
            NextStep::Finish(u),
        ) && u@ == unresolved@),
{
    if !progressed {
        if strict {
            return Err(ToolError::RestoreNoProgress { unresolved });
        }
        return Ok(NextStep::Finish(unresolved));
    }
    if attempt < MAX_RESTORE_ATTEMPTS {
        return Ok(NextStep::CheckAgain);
    }
    if strict {
        Err(ToolError::UnableToRestore { max_attempts: MAX_RESTORE_ATTEMPTS, unresolved })
    } else {
        Ok(NextStep::Finish(unresolved))
    }
}

/// The warning lines for diagnostics left unresolved: none when there are
/// none; else a line that counts them, then one line per message.
pub fn warn_unresolved(unresolved: &[String]) -> (r: Vec<String>)
    ensures
        unresolved@.len() == 0 ==> r@.len() == 0,
        unresolved@.len() > 0 ==> {
            &&& r@.len() == unresolved@.len() + 1
            &&& r@[0]@ == decimal(unresolved@.len()) + " diagnostic(s) could not be resolved; finishing anyway"@
            &&& forall|k: int| 0 <= k < unresolved@.len() ==> (#[trigger] r@[k + 1])@ == "  - "@ + unresolved@[k]@
        },
{
    let mut r: Vec<String> = Vec::new();
    if unresolved.len() == 0 {
        return r;
    }
    let mut head = decimal_of(unresolved.len());
    let tail = chars_of(" diagnostic(s) could not be resolved; finishing anyway");
    push_all(&mut head, tail.as_slice());
    r.push(string_of(head.as_slice()));
    let mut k: usize = 0;
    while k < unresolved.len()
        invariant
            k <= unresolved@.len(),
            r@.len() == k + 1,
            r@[0]@ == decimal(unresolved@.len()) + " diagnostic(s) could not be resolved; finishing anyway"@,
            forall|m: int| 0 <= m < k ==> (#[trigger] r@[m + 1])@ == "  - "@ + unresolved@[m]@,
        decreases unresolved@.len() - k,
    {
        let mut line = chars_of("  - ");
        let msg = chars_of(unresolved[k].as_str());
        push_all(&mut line, msg.as_slice());
        r.push(string_of(line.as_slice()));
        k = k + 1;
    }
    r
}

// ---------------------------------------------------------------------------
// What a pass keeps and what it gives back
// ---------------------------------------------------------------------------

proof fn lemma_without_shorter(s: Seq<Seq<char>>, x: Seq<char>)
    ensures
        without(s, x).len() <= s.len(),
        s.contains(x) ==> without(s, x).len() < s.len(),
    decreases s.len(),
{
    if s.len() > 0 {
        lemma_without_shorter(s.drop_last(), x);
        if s.contains(x) && s.last() != x {
            let k = choose|k: int| 0 <= k < s.len() && s[k] == x;
            assert(s.drop_last()[k] == x);
        }
    }
}

proof fn lemma_pending_in_update(items: Seq<ItemView>, j: int, it: ItemView)
    requires
        0 <= j < items.len(),
    ensures
        pending_in(items.update(j, it)) + items[j].unused.len() == pending_in(items)
            + it.unused.len(),
    decreases items.len(),
{
    let u = items.update(j, it);
    if j == items.len() - 1 {
        assert(u.drop_last() =~= items.drop_last());
    } else {
        lemma_pending_in_update(items.drop_last(), j, it);
        assert(u.drop_last() =~= items.drop_last().update(j, it));
    }
}

proof fn lemma_total_pending_update(v: Seq<EntryView>, i: int, e: EntryView)
    requires
        0 <= i < v.len(),
    ensures
        total_pending(v.update(i, e)) + pending_in(v[i].1) == total_pending(v) + pending_in(e.1),
    decreases v.len(),
{
    let u = v.update(i, e);
    if i == v.len() - 1 {
        assert(u.drop_last() =~= v.drop_last());
    } else {
        lemma_total_pending_update(v.drop_last(), i, e);
        assert(u.drop_last() =~= v.drop_last().update(i, e));
    }
}

/// The item a diagnostic is tied to is pending.
proof fn lemma_pick_pending(v: Seq<EntryView>, d: Diagnostic, source: Option<Seq<char>>)
    ensures
        match pick(v, d, source) {
            Some(p) => pending_at(v, p.0, p.1),
            None => true,
        },
{
    let by_text = best_named(v, d, item_names_in(d.text()));
    if by_text is Some {
        let q = choose|i: int, j: int| best_named_at(v, d, item_names_in(d.text()), i, j);
        assert(best_named_at(v, d, item_names_in(d.text()), q.0, q.1));
    } else {
        match loc_span(d) {
            None => {},
            Some(s) => {
                let peeked = match source {
                    Some(src) => peek_candidates(src, s.line_start as int, s.line_end as int),
                    None => Seq::empty(),
                };
                if best_named(v, d, peeked) is Some {
                    let q = choose|i: int, j: int| best_named_at(v, d, peeked, i, j);
                    assert(best_named_at(v, d, peeked, q.0, q.1));
                } else if nearest(v, s.file_name, s.line_start as int) is Some {
                    let q = choose|i: int, j: int| nearest_at(v, s.file_name, s.line_start as int, i, j);
                    assert(nearest_at(v, s.file_name, s.line_start as int, q.0, q.1));
                }
            },
        }
    }
}

/// What stays pending of a pending item is fewer derives, all of them
/// pending before.
proof fn lemma_left_pending(it: ItemView, text: Seq<char>, strict: bool)
    requires
        pending(it),
    ensures
        match left_pending(it, text, strict) {
            Some(u) => u.len() < it.unused.len() && forall|x: Seq<char>|
                u.contains(x) ==> it.unused.contains(x),
            None => true,
        },
{
    if it.unused.len() != 1 && mentions_any(it.unused, text) {
        lemma_first_mention(it.unused, text);
        let x = it.unused[first_mention(it.unused, text)];
        assert(it.unused.contains(x));
        lemma_without_shorter(it.unused, x);
        assert forall|y: Seq<char>| without(it.unused, x).contains(y) implies it.unused.contains(y) by {
            lemma_without_contains(it.unused, x, y);
        }
    }
}

/// Strict mode never guesses: a derive it takes out of an item's pending
/// derives is either the item's only pending derive or one the diagnostic's
/// text mentions.
pub proof fn law_strict_restores_only_named(it: ItemView, text: Seq<char>, x: Seq<char>)
    ensures
        left_pending(it, text, true) matches Some(u) && it.unused.contains(x) && !u.contains(x)
            ==> it.unused.len() == 1 || derive_mentioned(x, text),
{
    if it.unused.len() != 1 && mentions_any(it.unused, text) {
        lemma_first_mention(it.unused, text);
        let y = it.unused[first_mention(it.unused, text)];
        lemma_without_contains(it.unused, y, x);
    }
}

/// Two views of the same files with the same items, which may have fewer
/// derives pending in `after` than in `before`, and no other change.
pub open spec fn only_restored(before: Seq<EntryView>, after: Seq<EntryView>) -> bool {
    &&& after.len() == before.len()
    &&& forall|i: int|
        #![trigger after[i]]
        0 <= i < before.len() ==> after[i].0 == before[i].0 && after[i].1.len() == before[i].1.len()
    &&& forall|i: int, j: int|
        #![trigger after[i].1[j]]
        0 <= i < before.len() && 0 <= j < before[i].1.len() ==> {
            let a = after[i].1[j];
            let b = before[i].1[j];
            &&& a.name == b.name
            &&& a.lineno_source == b.lineno_source
            &&& a.lineno_sandbox == b.lineno_sandbox
            &&& a.original == b.original
            &&& a.unused.len() <= b.unused.len()
            &&& forall|x: Seq<char>| a.unused.contains(x) ==> b.unused.contains(x)
        }
}

/// A restore pass only ever puts derives back: the files, their items and
/// all about each item but its pending derives stay as they were, and what
/// is pending afterwards was pending before. A pass that touched a line
/// restored at least one derive, so fewer derives are pending after it;
/// since the count cannot go below zero, the restore loop cannot make
/// progress forever.
pub proof fn law_pass_only_restores(
    v: Seq<EntryView>,
    ds: Seq<Diagnostic>,
    sources: Seq<Option<Seq<char>>>,
    strict: bool,
)
    ensures
        only_restored(v, fix_all(fresh_pass(v), ds, sources, strict).entries),
        total_pending(fix_all(fresh_pass(v), ds, sources, strict).entries) <= total_pending(v),
        fix_all(fresh_pass(v), ds, sources, strict).touched.len() > 0 ==> total_pending(
            fix_all(fresh_pass(v), ds, sources, strict).entries,
        ) < total_pending(v),
    decreases ds.len(),
{
    if ds.len() > 0 {
        let prev = fix_all(fresh_pass(v), ds.drop_last(), sources, strict);
        law_pass_only_restores(v, ds.drop_last(), sources, strict);
        let d = ds.last();
        let source = source_at(sources, ds.len() - 1);
        lemma_pick_pending(prev.entries, d, source);
        match pick(prev.entries, d, source) {
            None => {},
            Some(p) => {
                let it = prev.entries[p.0].1[p.1];
                lemma_left_pending(it, d.text(), strict);
                match left_pending(it, d.text(), strict) {
                    None => {},
                    Some(u) => {
                        let next = with_item(prev.entries, p.0, p.1, with_pending(it, u));
                        let e = (prev.entries[p.0].0, prev.entries[p.0].1.update(p.1, with_pending(it, u)));
                        lemma_pending_in_update(prev.entries[p.0].1, p.1, with_pending(it, u));
                        lemma_total_pending_update(prev.entries, p.0, e);
                        assert(only_restored(v, next)) by {
                            assert forall|i: int, j: int|
                                0 <= i < v.len() && 0 <= j < v[i].1.len() implies {
                                let a = #[trigger] next[i].1[j];
                                let b = v[i].1[j];
                                &&& a.name == b.name
                                &&& a.lineno_source == b.lineno_source
                                &&& a.lineno_sandbox == b.lineno_sandbox
                                &&& a.original == b.original
                                &&& a.unused.len() <= b.unused.len()
                                &&& forall|x: Seq<char>| a.unused.contains(x) ==> b.unused.contains(x)
                            } by {}
                        }
                        lemma_key_index(prev.touched, prev.entries[p.0].0);
                    },
                }
            },
        }
    }
}

/// The `i`-th file of `before` is at `path`.
pub open spec fn file_at(before: Seq<EntryView>, path: Seq<char>, i: int) -> bool {
    0 <= i < before.len() && before[i].0 == path
}

/// Some item of the `i`-th file sits on sandbox line `line` and has fewer
/// derives pending in `after` than in `before`.
pub open spec fn restored_on_line(before: Seq<EntryView>, after: Seq<EntryView>, i: int, line: usize) -> bool {
    0 <= i < before.len() && exists|j: int|
        0 <= j < before[i].1.len() && before[i].1[j].lineno_sandbox == line
            && #[trigger] after[i].1[j].unused.len() < before[i].1[j].unused.len()
}

/// Each line of the touched entry `e` belongs to an item of its file that
/// had derives restored.
pub open spec fn entry_restored(
    before: Seq<EntryView>,
    after: Seq<EntryView>,
    e: (Seq<char>, Seq<usize>),
) -> bool {
    exists|i: int|
        #[trigger] file_at(before, e.0, i) && forall|m: int|
            0 <= m < e.1.len() ==> restored_on_line(before, after, i, #[trigger] e.1[m])
}

/// Every touched line belongs to an item of the touched file that had
/// derives restored.
pub open spec fn touched_restored(before: Seq<EntryView>, after: Seq<EntryView>, t: Touched) -> bool {
    forall|k: int| 0 <= k < t.len() ==> entry_restored(before, after, #[trigger] t[k])
}

/// A pass touches no line in vain: each line it asks to rewrite is that of
/// an item of the file which had derives restored in the pass.
pub proof fn law_pass_touches_restored_items(
    v: Seq<EntryView>,
    ds: Seq<Diagnostic>,
    sources: Seq<Option<Seq<char>>>,
    strict: bool,
)
    requires
        crate::items::keys_sorted(v),
    ensures
        touched_restored(
            v,
            fix_all(fresh_pass(v), ds, sources, strict).entries,
            fix_all(fresh_pass(v), ds, sources, strict).touched,
        ),
    decreases ds.len(),
{
    if ds.len() > 0 {
        let prev = fix_all(fresh_pass(v), ds.drop_last(), sources, strict);
        law_pass_touches_restored_items(v, ds.drop_last(), sources, strict);
        law_pass_only_restores(v, ds.drop_last(), sources, strict);
        let d = ds.last();
        let source = source_at(sources, ds.len() - 1);
        assert(fix_all(fresh_pass(v), ds, sources, strict) == fix_step(prev, d, source, strict));
        lemma_pick_pending(prev.entries, d, source);
        match pick(prev.entries, d, source) {
            None => {},
            Some(p) => {
                let it = prev.entries[p.0].1[p.1];
                lemma_left_pending(it, d.text(), strict);
                match left_pending(it, d.text(), strict) {
                    None => {},
                    Some(u) => {
                        let next = with_item(prev.entries, p.0, p.1, with_pending(it, u));
                        let path0 = prev.entries[p.0].0;
                        let line0 = it.lineno_sandbox;
                        assert(file_at(v, path0, p.0));
                        assert(v[p.0].1[p.1].lineno_sandbox == line0);
                        assert(next[p.0].1[p.1].unused.len() < v[p.0].1[p.1].unused.len());
                        assert(restored_on_line(v, next, p.0, line0));
                        // what was restored stays restored
                        assert forall|i: int, l: usize| #[trigger] restored_on_line(v, prev.entries, i, l)
                            implies restored_on_line(v, next, i, l) by {
                            let j = choose|j: int|
                                0 <= j < v[i].1.len() && v[i].1[j].lineno_sandbox == l
                                    && #[trigger] prev.entries[i].1[j].unused.len() < v[i].1[j].unused.len();
                            if i == p.0 && j == p.1 {
                                assert(next[i].1[j].unused == u);
                            } else {
                                assert(next[i].1[j] == prev.entries[i].1[j]);
                            }
                            assert(prev.entries[i].1[j].unused.len() <= v[i].1[j].unused.len());
                        }
                        let t = prev.touched;
                        let t2 = touch(t, path0, line0);
                        lemma_key_index(t, path0);
                        assert forall|k: int| 0 <= k < t2.len() implies entry_restored(
                            v,
                            next,
                            #[trigger] t2[k],
                        ) by {
                            if k < t.len() {
                                assert(entry_restored(v, prev.entries, t[k]));
                                let i = choose|i: int|
                                    #[trigger] file_at(v, t[k].0, i) && forall|m: int|
                                        0 <= m < t[k].1.len() ==> restored_on_line(
                                            v,
                                            prev.entries,
                                            i,
                                            #[trigger] t[k].1[m],
                                        );
                                if key_index(t, path0) == Some(k) {
                                    crate::items::lemma_key_unique(v, path0, i, p.0);
                                    assert(t2[k] == (path0, with_line(t[k].1, line0)));
                                    assert forall|m: int| 0 <= m < t2[k].1.len() implies restored_on_line(
                                        v,
                                        next,
                                        p.0,
                                        #[trigger] t2[k].1[m],
                                    ) by {
                                        if m < t[k].1.len() {
                                            assert(t2[k].1[m] == t[k].1[m]);
                                            assert(restored_on_line(v, prev.entries, i, t[k].1[m]));
                                        } else {
                                            assert(t2[k].1[m] == line0);
                                        }
                                    }
                                    assert(file_at(v, t2[k].0, p.0));
                                } else {
                                    assert(t2[k] == t[k]);
                                    assert forall|m: int| 0 <= m < t2[k].1.len() implies restored_on_line(
                                        v,
                                        next,
                                        i,
                                        #[trigger] t2[k].1[m],
                                    ) by {
                                        assert(restored_on_line(v, prev.entries, i, t[k].1[m]));
                                    }
                                    assert(file_at(v, t2[k].0, i));
                                }
                            } else {
                                assert(key_index(t, path0) is None);
                                assert(t2[k] == (path0, seq![line0]));
                                assert forall|m: int| 0 <= m < t2[k].1.len() implies restored_on_line(
                                    v,
                                    next,
                                    p.0,
                                    #[trigger] t2[k].1[m],
                                ) by {}
                                assert(file_at(v, t2[k].0, p.0));
                            }
                        }
                        assert(touched_restored(v, next, t2));
                    },
                }
            },
        }
    }
}


/// When a diagnostic is tied to an item with several derives pending and its
/// text mentions one of them, the pass restores exactly one derive of that
/// item, in strict and lenient mode alike: the first pending derive the text
/// mentions. Every other pending derive stays pending.
pub proof fn law_mentioned_derive_restored_alone(
    s: FixView,
    d: Diagnostic,
    source: Option<Seq<char>>,
    strict: bool,
)
    requires
        pick(s.entries, d, source) matches Some(p) && s.entries[p.0].1[p.1].unused.len() > 1 && exists|
            k: int,
        |
            0 <= k < s.entries[p.0].1[p.1].unused.len() && derive_mentioned(
                #[trigger] s.entries[p.0].1[p.1].unused[k],
                d.text(),
            ),
    ensures
        pick(s.entries, d, source) matches Some(p) && ({
            let u = s.entries[p.0].1[p.1].unused;
            let after = fix_step(s, d, source, strict).entries[p.0].1[p.1].unused;
            exists|k: int|
                #![trigger u[k]]
                0 <= k < u.len() && derive_mentioned(u[k], d.text()) && (forall|m: int|
                    0 <= m < k ==> !derive_mentioned(#[trigger] u[m], d.text())) && (forall|
                    y: Seq<char>,
                | #[trigger] after.contains(y) <==> (u.contains(y) && y != u[k]))
        }),
        fix_step(s, d, source, strict).unresolved == s.unresolved,
        fix_step(s, d, source, strict).warnings == s.warnings,
{
    let p = pick(s.entries, d, source)->0;
    lemma_pick_pending(s.entries, d, source);
    let it = s.entries[p.0].1[p.1];
    let u = it.unused;
    lemma_first_mention(u, d.text());
    let f = first_mention(u, d.text());
    assert(left_pending(it, d.text(), strict) == Some(without(u, u[f])));
    let after = fix_step(s, d, source, strict).entries[p.0].1[p.1].unused;
    assert(after == without(u, u[f]));
    assert forall|y: Seq<char>| #[trigger] after.contains(y) <==> (u.contains(y) && y != u[f]) by {
        lemma_without_contains(u, u[f], y);
    }
    assert(0 <= f < u.len() && derive_mentioned(u[f], d.text()));
}

/// Picking by nearness minimises, over the pending items of the
/// diagnostic's file, the distance between the diagnostic's line and the
/// item's line in the sandbox file (the file the diagnostic points into);
/// of items equally near, the first in file and item order is picked.
pub proof fn law_nearest_by_sandbox_line(v: Seq<EntryView>, file: Seq<char>, line: int)
    ensures
        nearest(v, file, line) matches Some(p) ==> {
            &&& pending_at(v, p.0, p.1)
            &&& same_path(file, v[p.0].0)
            &&& forall|a: int, b: int|
                #![trigger v[a].1[b]]
                pending_at(v, a, b) && same_path(file, v[a].0) ==> {
                    let dp = v[p.0].1[p.1].lineno_sandbox as int - line;
                    let dq = v[a].1[b].lineno_sandbox as int - line;
                    (if dp >= 0 {
                        dp
                    } else {
                        -dp
                    }) <= (if dq >= 0 {
                        dq
                    } else {
                        -dq
                    })
                }
            &&& forall|a: int, b: int|
                #![trigger v[a].1[b]]
                pending_at(v, a, b) && same_path(file, v[a].0) && (a < p.0 || (a == p.0 && b < p.1)) ==> {
                    let dp = v[p.0].1[p.1].lineno_sandbox as int - line;
                    let dq = v[a].1[b].lineno_sandbox as int - line;
                    (if dp >= 0 {
                        dp
                    } else {
                        -dp
                    }) < (if dq >= 0 {
                        dq
                    } else {
                        -dq
                    })
                }
        },
{
    if exists|i: int, j: int| nearest_at(v, file, line, i, j) {
        let p = choose|i: int, j: int| nearest_at(v, file, line, i, j);
        assert(nearest_at(v, file, line, p.0, p.1));
        assert forall|a: int, b: int|
            pending_at(v, a, b) && same_path(file, v[a].0) implies {
                let dp = v[p.0].1[p.1].lineno_sandbox as int - line;
                let dq = v[a].1[b].lineno_sandbox as int - line;
                (if dp >= 0 {
                    dp
                } else {
                    -dp
                }) <= (if dq >= 0 {
                    dq
                } else {
                    -dq
                })
            } by {
            assert(near_at(v, file, a, b));
        }
        assert forall|a: int, b: int|
            pending_at(v, a, b) && same_path(file, v[a].0) && (a < p.0 || (a == p.0 && b < p.1)) implies {
                let dp = v[p.0].1[p.1].lineno_sandbox as int - line;
                let dq = v[a].1[b].lineno_sandbox as int - line;
                (if dp >= 0 {
                    dp
                } else {
                    -dp
                }) < (if dq >= 0 {
                    dq
                } else {
                    -dq
                })
            } by {
            assert(near_at(v, file, a, b));
            assert(walked_before(a, b, p.0, p.1));
        }
    }
}


/// When the item a diagnostic is tied to has a single derive pending, or
/// the diagnostic's text mentions none of its pending derives: a single
/// pending derive is restored in either mode; of several, lenient mode
/// restores them all with one warning, and strict mode refuses to guess,
/// changes no item and notes the diagnostic as unresolved.
pub proof fn law_unpinned_step(s: FixView, d: Diagnostic, source: Option<Seq<char>>, strict: bool)
    requires
        pick(s.entries, d, source) matches Some(p) && (s.entries[p.0].1[p.1].unused.len() == 1
            || forall|k: int|
            0 <= k < s.entries[p.0].1[p.1].unused.len() ==> !derive_mentioned(
                #[trigger] s.entries[p.0].1[p.1].unused[k],
                d.text(),
            )),
    ensures
        pick(s.entries, d, source) matches Some(p) && ({
            let u = s.entries[p.0].1[p.1].unused;
            let next = fix_step(s, d, source, strict);
            if u.len() == 1 || !strict {
                &&& next.entries[p.0].1[p.1].unused == Seq::<Seq<char>>::empty()
                &&& next.unresolved == s.unresolved
                &&& next.warnings.len() == s.warnings.len() + if u.len() == 1 {
                    0int
                } else {
                    1int
                }
            } else {
                &&& next.entries == s.entries
                &&& next.unresolved.len() == s.unresolved.len() + 1
                &&& next.warnings == s.warnings
            }
        }),
{
    let p = pick(s.entries, d, source)->0;
    lemma_pick_pending(s.entries, d, source);
    let it = s.entries[p.0].1[p.1];
    if it.unused.len() != 1 {
        assert(!mentions_any(it.unused, d.text()));
    }
}


/// Picking by name puts a derive match first and the file second: the item
/// picked among the pending items bearing one of `names` has a pending
/// derive the diagnostic mentions whenever any of them has; and of those
/// alike in that, it stands in a file the diagnostic's spans point at
/// whenever any of them does.
pub proof fn law_named_pick_prefers_derive_then_file(
    v: Seq<EntryView>,
    d: Diagnostic,
    names: Seq<Seq<char>>,
)
    ensures
        best_named(v, d, names) matches Some(p) ==> {
            &&& pending_at(v, p.0, p.1)
            &&& names.contains(v[p.0].1[p.1].name)
            &&& forall|a: int, b: int|
                #![trigger v[a].1[b]]
                pending_at(v, a, b) && names.contains(v[a].1[b].name) ==> {
                    &&& (mentions_any(v[a].1[b].unused, d.text()) ==> mentions_any(
                        v[p.0].1[p.1].unused,
                        d.text(),
                    ))
                    &&& (mentions_any(v[a].1[b].unused, d.text()) == mentions_any(
                        v[p.0].1[p.1].unused,
                        d.text(),
                    ) && references_path(d.report(), v[a].0) ==> references_path(
                        d.report(),
                        v[p.0].0,
                    ))
                }
        },
{
    if exists|i: int, j: int| best_named_at(v, d, names, i, j) {
        let p = choose|i: int, j: int| best_named_at(v, d, names, i, j);
        assert(best_named_at(v, d, names, p.0, p.1));
        assert forall|a: int, b: int|
            #![trigger v[a].1[b]]
            pending_at(v, a, b) && names.contains(v[a].1[b].name) implies {
                &&& (mentions_any(v[a].1[b].unused, d.text()) ==> mentions_any(
                    v[p.0].1[p.1].unused,
                    d.text(),
                ))
                &&& (mentions_any(v[a].1[b].unused, d.text()) == mentions_any(
                    v[p.0].1[p.1].unused,
                    d.text(),
                ) && references_path(d.report(), v[a].0) ==> references_path(
                    d.report(),
                    v[p.0].0,
                ))
            } by {
            assert(named_at(v, names, a, b));
            assert(name_score(v, d, a, b) <= name_score(v, d, p.0, p.1));
        }
    }
}

} // verus!
