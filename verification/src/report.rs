//! Ordering the stripped items for the report, and the report itself.

use vstd::prelude::*;

use crate::items::{item_views, Item, ItemView, Items, EntryView};
use crate::text::{chars_of, decimal, decimal_of, join_with, push_all, push_joined, string_of};

verus! {

broadcast use {vstd::string::group_string_axioms, vstd::slice::group_slice_axioms};

/// `p` lists each index below `n` at most once, and only those.
pub open spec fn is_permutation(p: Seq<int>, n: nat) -> bool {
    &&& p.len() == n
    &&& forall|i: int| 0 <= i < p.len() ==> 0 <= #[trigger] p[i] < n
    &&& forall|i: int, j: int| 0 <= i < j < p.len() ==> #[trigger] p[i] != #[trigger] p[j]
}

/// `r` holds the items of `s`, placed by `p` (`r[i]` is `s[p[i]]`), in
/// increasing source line, items on the same line in the order `s` gave
/// them.
pub open spec fn stable_line_order_by(r: Seq<ItemView>, s: Seq<ItemView>, p: Seq<int>) -> bool {
    &&& r.len() == s.len()
    &&& is_permutation(p, s.len())
    &&& forall|i: int| 0 <= i < r.len() ==> #[trigger] r[i] == s[p[i]]
    &&& forall|i: int, j: int|
        0 <= i < j < r.len() ==> (#[trigger] r[i]).lineno_source < (#[trigger] r[j]).lineno_source
            || (r[i].lineno_source == r[j].lineno_source && p[i] < p[j])
}

/// `r` is `s` stably sorted by source line.
pub open spec fn sorted_by_line(r: Seq<ItemView>, s: Seq<ItemView>) -> bool {
    exists|p: Seq<int>| stable_line_order_by(r, s, p)
}

/// Sorts `v` by source line, keeping items on the same line in order.
pub fn sort_by_source_line(v: Vec<Item>) -> (r: Vec<Item>)
    ensures
        sorted_by_line(item_views(r@), item_views(v@)),
{
    let ghost s = item_views(v@);
    let ghost n = v@.len();
    let mut src = v;
    let mut r: Vec<Item> = Vec::new();
    let ghost mut p: Seq<int> = Seq::empty();
    while src.len() > 0
        invariant
            s.len() == n,
            item_views(src@) == s.take(src@.len() as int),
            src@.len() <= n,
            item_views(r@).len() == p.len(),
            p.len() == n - src@.len(),
            forall|i: int| 0 <= i < p.len() ==> src@.len() <= #[trigger] p[i] < n,
            forall|i: int, j: int| 0 <= i < j < p.len() ==> #[trigger] p[i] != #[trigger] p[j],
            forall|i: int| 0 <= i < r@.len() ==> (#[trigger] r@[i])@ == s[p[i]],
            forall|i: int, j: int|
                0 <= i < j < r@.len() ==> (#[trigger] r@[i])@.lineno_source < (
                #[trigger] r@[j])@.lineno_source || (r@[i]@.lineno_source == r@[j]@.lineno_source
                    && p[i] < p[j]),
        decreases src@.len(),
    {
        let ghost k = src@.len() - 1;
        let ghost old_src = src@;
        let x = src.pop().unwrap();
        proof {
            assert(item_views(src@) =~= s.take(k));
            assert(item_views(old_src)[k] == old_src[k]@);
            assert(s.take(k + 1)[k] == s[k]);
            assert(x@ == s[k]);
        }
        let key = x.lineno_source();
        let mut pos: usize = 0;
        while pos < r.len() && r[pos].lineno_source() < key
            invariant
                pos <= r@.len(),
                forall|i: int| 0 <= i < pos ==> (#[trigger] r@[i])@.lineno_source < key,
            decreases r@.len() - pos,
        {
            pos = pos + 1;
        }
        let ghost old_r = r@;
        let ghost old_p = p;
        r.insert(pos, x);
        proof {
            p = old_p.insert(pos as int, k);
            assert forall|i: int| 0 <= i < r@.len() implies (#[trigger] r@[i])@ == s[p[i]] by {
                if i < pos {
                    assert(r@[i] == old_r[i]);
                } else if i > pos {
                    assert(r@[i] == old_r[i - 1]);
                }
            }
            assert forall|i: int, j: int| 0 <= i < j < r@.len() implies (#[trigger] r@[i])@.lineno_source
                < (#[trigger] r@[j])@.lineno_source || (r@[i]@.lineno_source == r@[j]@.lineno_source
                && p[i] < p[j]) by {
                if j < pos {
                    assert(r@[i] == old_r[i] && r@[j] == old_r[j]);
                } else if i < pos && j == pos {
                    assert(r@[i] == old_r[i]);
                } else if i < pos {
                    assert(r@[i] == old_r[i] && r@[j] == old_r[j - 1]);
                } else if i == pos {
                    assert(r@[j] == old_r[j - 1]);
                    if pos < old_r.len() {
                        assert(!(old_r[pos as int]@.lineno_source < key));
                        if j - 1 > pos {
                            assert(old_r[pos as int]@.lineno_source < old_r[j - 1]@.lineno_source
                                || old_r[pos as int]@.lineno_source == old_r[j - 1]@.lineno_source);
                        }
                    }
                } else {
                    assert(r@[i] == old_r[i - 1] && r@[j] == old_r[j - 1]);
                }
            }
            assert forall|i: int, j: int| 0 <= i < j < p.len() implies #[trigger] p[i] != #[trigger] p[j] by {
                if i < pos && j > pos {
                    assert(p[i] == old_p[i] && p[j] == old_p[j - 1]);
                } else if j < pos {
                } else if i > pos {
                    assert(p[i] == old_p[i - 1] && p[j] == old_p[j - 1]);
                }
            }
            assert(item_views(r@).len() == p.len());
        }
    }
    proof {
        assert(stable_line_order_by(item_views(r@), s, p));
    }
    r
}

impl Items {
    /// Sorts the items of every file by source line, items on the same line
    /// keeping their order. The files stay in path order.
    pub fn sort(&mut self)
        requires
            old(self).wf(),
        ensures
            final(self).wf(),
            final(self)@.len() == old(self)@.len(),
            forall|i: int|
                0 <= i < old(self)@.len() ==> (#[trigger] final(self)@[i]).0 == old(self)@[i].0
                    && sorted_by_line(final(self)@[i].1, old(self)@[i].1),
    {
        let ghost before = self@;
        let n = self.len();
        let mut i: usize = 0;
        while i < n
            invariant
                self.wf(),
                before == old(self)@,
                n == before.len(),
                self@.len() == n,
                i <= n,
                forall|j: int|
                    0 <= j < n ==> (#[trigger] self@[j]).0 == before[j].0,
                forall|j: int| i <= j < n ==> (#[trigger] self@[j]).1 == before[j].1,
                forall|j: int| 0 <= j < i ==> sorted_by_line(#[trigger] self@[j].1, before[j].1),
            decreases n - i,
        {
            self.sort_file(i);
            i = i + 1;
        }
    }

    /// Sorts the items of the `i`-th file by source line.
    fn sort_file(&mut self, i: usize)
        requires
            old(self).wf(),
            i < old(self)@.len(),
        ensures
            final(self).wf(),
            final(self)@.len() == old(self)@.len(),
            forall|j: int| 0 <= j < old(self)@.len() ==> (#[trigger] final(self)@[j]).0 == old(self)@[j].0,
            forall|j: int| 0 <= j < old(self)@.len() && j != i ==> (#[trigger] final(self)@[j]).1 == old(self)@[j].1,
            sorted_by_line(final(self)@[i as int].1, old(self)@[i as int].1),
    {
        proof {
            self.lemma_stored();
        }
        let ghost before = self@;
        let (_paths, files) = self.iter_mut();
        let mut taken: Vec<Item> = Vec::new();
        std::mem::swap(&mut taken, &mut files[i]);
        let sorted = sort_by_source_line(taken);
        files[i] = sorted;
        proof {
            self.lemma_stored();
            assert forall|j: int| 0 <= j < before.len() implies (#[trigger] self@[j]).0 == before[j].0 by {
            }
        }
    }

    /// Number of derives still pending over all items.
    pub fn total_unused(&self) -> (r: usize)
        requires
            self.wf(),
            total_pending(self@) <= usize::MAX,
        ensures
            r == total_pending(self@),
    {
        let files = self.iter();
        let mut total: usize = 0;
        let mut i: usize = 0;
        while i < files.len()
            invariant
                files@.len() == self@.len(),
                forall|k: int|
                    0 <= k < files@.len() ==> item_views((#[trigger] files@[k]).1@) == self@[k].1,
                i <= files@.len(),
                total == total_pending(self@.take(i as int)),
                total_pending(self@) <= usize::MAX,
            decreases files@.len() - i,
        {
            let items = files[i].1;
            let mut j: usize = 0;
            let ghost base = total as int;
            proof {
                assert(self@.take(i as int + 1).drop_last() =~= self@.take(i as int));
                lemma_total_pending_prefix(self@, i as int + 1);
            }
            while j < items.len()
                invariant
                    item_views(items@) == self@[i as int].1,
                    i < self@.len(),
                    j <= items@.len(),
                    total == base + pending_in(item_views(items@).take(j as int)),
                    base + pending_in(self@[i as int].1) <= usize::MAX,
                decreases items@.len() - j,
            {
                proof {
                    assert(item_views(items@).take(j as int + 1).drop_last() =~= item_views(
                        items@,
                    ).take(j as int));
                    lemma_pending_prefix(item_views(items@), j as int + 1);
                }
                let k = items[j].derives_unused().len();
                proof {
                    assert(item_views(items@).take(j as int + 1).last() == items@[j as int]@);
                    assert(k == items@[j as int]@.unused.len());
                }
                total = total + k;
                j = j + 1;
            }
            proof {
                assert(item_views(items@).take(items@.len() as int) == item_views(items@));
            }
            i = i + 1;
        }
        proof {
            assert(self@.take(files@.len() as int) == self@);
        }
        total
    }
}

/// Number of pending derives over `items`.
pub open spec fn pending_in(items: Seq<ItemView>) -> nat
    decreases items.len(),
{
    if items.len() == 0 {
        0
    } else {
        pending_in(items.drop_last()) + items.last().unused.len()
    }
}

/// Number of pending derives over every file of `v`.
pub open spec fn total_pending(v: Seq<EntryView>) -> nat
    decreases v.len(),
{
    if v.len() == 0 {
        0
    } else {
        total_pending(v.drop_last()) + pending_in(v.last().1)
    }
}

pub proof fn lemma_pending_prefix(items: Seq<ItemView>, k: int)
    requires
        0 <= k <= items.len(),
    ensures
        pending_in(items.take(k)) <= pending_in(items),
    decreases items.len(),
{
    if k < items.len() {
        assert(items.drop_last().take(k) =~= items.take(k));
        lemma_pending_prefix(items.drop_last(), k);
    } else {
        assert(items.take(k) =~= items);
    }
}

pub proof fn lemma_total_pending_prefix(v: Seq<EntryView>, k: int)
    requires
        0 <= k <= v.len(),
    ensures
        total_pending(v.take(k)) <= total_pending(v),
        k > 0 ==> total_pending(v.take(k - 1)) + pending_in(v[k - 1].1) == total_pending(v.take(k)),
    decreases v.len(),
{
    if k < v.len() {
        assert(v.drop_last().take(k) =~= v.take(k));
        lemma_total_pending_prefix(v.drop_last(), k);
    } else {
        assert(v.take(k) =~= v);
    }
    if k > 0 {
        assert(v.take(k).drop_last() =~= v.take(k - 1));
    }
}

/// What a report says when no derive is left unused.
pub open spec fn none_found_text() -> Seq<char> {
    "No unused derives found.\n"@
}

/// The text between an item's name and its unused derives.
pub open spec fn unused_label() -> Seq<char> {
    " \u{2014} unused: "@
}

/// The report line of an item of the file at `path`:
/// `path:line Name — unused: A, B`.
pub open spec fn report_line(path: Seq<char>, it: ItemView) -> Seq<char> {
    path + seq![':'] + decimal(it.lineno_source as nat) + seq![' '] + it.name + unused_label()
        + join_with(it.unused, seq![',', ' ']) + seq!['\n']
}

/// The report lines of the items of `items`, in order, leaving out items
/// with no unused derive.
pub open spec fn file_report(path: Seq<char>, items: Seq<ItemView>) -> Seq<char>
    decreases items.len(),
{
    if items.len() == 0 {
        Seq::empty()
    } else if items.last().unused.len() > 0 {
        file_report(path, items.drop_last()) + report_line(path, items.last())
    } else {
        file_report(path, items.drop_last())
    }
}

/// The report lines of every file of `v`, in order.
pub open spec fn entries_report(v: Seq<EntryView>) -> Seq<char>
    decreases v.len(),
{
    if v.len() == 0 {
        Seq::empty()
    } else {
        entries_report(v.drop_last()) + file_report(v.last().0, v.last().1)
    }
}

/// The report: a line per item that still has unused derives, or a single
/// line saying there are none.
pub open spec fn report_text(v: Seq<EntryView>) -> Seq<char> {
    if total_pending(v) == 0 {
        none_found_text()
    } else {
        entries_report(v)
    }
}

pub proof fn lemma_file_report_empty(path: Seq<char>, items: Seq<ItemView>)
    ensures
        (file_report(path, items).len() == 0) == (pending_in(items) == 0),
    decreases items.len(),
{
    if items.len() > 0 {
        lemma_file_report_empty(path, items.drop_last());
    }
}

pub proof fn lemma_entries_report_empty(v: Seq<EntryView>)
    ensures
        (entries_report(v).len() == 0) == (total_pending(v) == 0),
    decreases v.len(),
{
    if v.len() > 0 {
        lemma_entries_report_empty(v.drop_last());
        lemma_file_report_empty(v.last().0, v.last().1);
    }
}

impl Items {
    /// The report of the unused derives ([`report_text`]).
    pub fn render(&self) -> (r: String)
        requires
            self.wf(),
        ensures
            r@ == report_text(self@),
    {
        let files = self.iter();
        let label = chars_of(" \u{2014} unused: ");
        let sep = vec![',', ' '];
        let mut out: Vec<char> = Vec::new();
        let mut i: usize = 0;
        while i < files.len()
            invariant
                files@.len() == self@.len(),
                forall|k: int|
                    0 <= k < files@.len() ==> (#[trigger] files@[k]).0@ == self@[k].0
                        && item_views(files@[k].1@) == self@[k].1,
                label@ == unused_label(),
                sep@ == seq![',', ' '],
                i <= files@.len(),
                out@ == entries_report(self@.take(i as int)),
            decreases files@.len() - i,
        {
            let path = chars_of(files[i].0);
            let items = files[i].1;
            let ghost base = out@;
            let mut j: usize = 0;
            proof {
                assert(self@.take(i as int + 1).drop_last() =~= self@.take(i as int));
                assert(self@.take(i as int + 1).last() == self@[i as int]);
                assert(item_views(items@).take(0) =~= Seq::<ItemView>::empty());
            }
            while j < items.len()
                invariant
                    item_views(items@) == self@[i as int].1,
                    path@ == self@[i as int].0,
                    label@ == unused_label(),
                    sep@ == seq![',', ' '],
                    j <= items@.len(),
                    out@ == base + file_report(path@, item_views(items@).take(j as int)),
                decreases items@.len() - j,
            {
                let it = &items[j];
                proof {
                    assert(item_views(items@).take(j as int + 1).drop_last() =~= item_views(
                        items@,
                    ).take(j as int));
                    assert(item_views(items@).take(j as int + 1).last() == it@);
                }
                let unused = it.derives_unused();
                if unused.len() > 0 {
                    let ghost before = out@;
                    push_all(&mut out, path.as_slice());
                    out.push(':');
                    let digits = decimal_of(it.lineno_source());
                    push_all(&mut out, digits.as_slice());
                    out.push(' ');
                    let name = chars_of(it.name());
                    push_all(&mut out, name.as_slice());
                    push_all(&mut out, label.as_slice());
                    push_joined(&mut out, unused, sep.as_slice());
                    out.push('\n');
                    proof {
                        assert(unused@.map_values(|s: String| s@) == it@.unused);
                        assert(out@ =~= before + report_line(path@, it@));
                    }
                }
                j = j + 1;
            }
            proof {
                assert(item_views(items@).take(items@.len() as int) == item_views(items@));
            }
            i = i + 1;
        }
        proof {
            assert(self@.take(files@.len() as int) == self@);
            lemma_entries_report_empty(self@);
        }
        if out.len() == 0 {
            let none = chars_of("No unused derives found.\n");
            string_of(none.as_slice())
        } else {
            string_of(out.as_slice())
        }
    }
}

} // verus!
