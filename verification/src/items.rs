//! The items whose derives were stripped, grouped by the file they stand in.

use vstd::prelude::*;

use crate::path::{lemma_path_order, path_before, path_less, paths_equal, same_path};

verus! {

broadcast use {vstd::string::group_string_axioms, vstd::slice::group_slice_axioms};

/// The character sequences of a sequence of strings.
pub open spec fn strs(v: Seq<String>) -> Seq<Seq<char>> {
    v.map_values(|s: String| s@)
}

pub proof fn lemma_strs_push(v: Seq<String>, x: String)
    ensures
        strs(v.push(x)) == strs(v).push(x@),
{
    assert(strs(v.push(x)) =~= strs(v).push(x@));
}

/// The entries of `s` that occur in `m`, in order.
pub open spec fn listed_in(s: Seq<Seq<char>>, m: Seq<Seq<char>>) -> Seq<Seq<char>>
    decreases s.len(),
{
    if s.len() == 0 {
        s
    } else if m.contains(s.last()) {
        listed_in(s.drop_last(), m).push(s.last())
    } else {
        listed_in(s.drop_last(), m)
    }
}

/// The entries of `s` that do not occur in `m`, in order.
pub open spec fn not_listed_in(s: Seq<Seq<char>>, m: Seq<Seq<char>>) -> Seq<Seq<char>>
    decreases s.len(),
{
    if s.len() == 0 {
        s
    } else if m.contains(s.last()) {
        not_listed_in(s.drop_last(), m)
    } else {
        not_listed_in(s.drop_last(), m).push(s.last())
    }
}

/// The entries of `s` other than `x`, in order.
pub open spec fn without(s: Seq<Seq<char>>, x: Seq<char>) -> Seq<Seq<char>>
    decreases s.len(),
{
    if s.len() == 0 {
        s
    } else if s.last() == x {
        without(s.drop_last(), x)
    } else {
        without(s.drop_last(), x).push(s.last())
    }
}

pub proof fn lemma_without_contains(s: Seq<Seq<char>>, x: Seq<char>, y: Seq<char>)
    ensures
        without(s, x).contains(y) <==> (s.contains(y) && y != x),
    decreases s.len(),
{
    if s.len() > 0 {
        lemma_without_contains(s.drop_last(), x, y);
        if s.contains(y) && y != x {
            let i = choose|i: int| 0 <= i < s.len() && s[i] == y;
            if i < s.len() - 1 {
                assert(s.drop_last()[i] == y);
            }
        }
        if s.drop_last().contains(y) {
            let i = choose|i: int| 0 <= i < s.drop_last().len() && s.drop_last()[i] == y;
            assert(s[i] == y);
        }
        let w = without(s.drop_last(), x);
        if w.contains(y) {
            let i = choose|i: int| 0 <= i < w.len() && w[i] == y;
            if s.last() != x {
                assert(w.push(s.last())[i] == y);
            }
        }
        if s.last() != x && y == s.last() {
            assert(w.push(s.last())[w.len() as int] == y);
        }
    }
}

pub proof fn lemma_listed_in_all(s: Seq<Seq<char>>, m: Seq<Seq<char>>)
    requires
        forall|i: int| 0 <= i < s.len() ==> m.contains(#[trigger] s[i]),
    ensures
        listed_in(s, m) == s,
    decreases s.len(),
{
    if s.len() > 0 {
        assert(m.contains(s[s.len() - 1]));
        lemma_listed_in_all(s.drop_last(), m);
        assert(s.drop_last().push(s.last()) =~= s);
    }
}

pub proof fn lemma_listed_in_without(s: Seq<Seq<char>>, m: Seq<Seq<char>>, x: Seq<char>)
    ensures
        listed_in(s, without(m, x)) == without(listed_in(s, m), x),
    decreases s.len(),
{
    if s.len() > 0 {
        lemma_listed_in_without(s.drop_last(), m, x);
        lemma_without_contains(m, x, s.last());
        let t = listed_in(s.drop_last(), m);
        assert(t.push(s.last()).drop_last() =~= t);
    }
}

proof fn lemma_listed_split(s: Seq<Seq<char>>, m: Seq<Seq<char>>, x: Seq<char>)
    ensures
        listed_in(s, m).contains(x) <==> (s.contains(x) && m.contains(x)),
        not_listed_in(s, m).contains(x) <==> (s.contains(x) && !m.contains(x)),
        listed_in(s, m).len() + not_listed_in(s, m).len() == s.len(),
    decreases s.len(),
{
    if s.len() > 0 {
        let t = s.drop_last();
        lemma_listed_split(t, m, x);
        let l = listed_in(t, m);
        let n = not_listed_in(t, m);
        if s.contains(x) && x != s.last() {
            let k = choose|k: int| 0 <= k < s.len() && s[k] == x;
            assert(t[k] == x);
        }
        if t.contains(x) {
            let k = choose|k: int| 0 <= k < t.len() && t[k] == x;
            assert(s[k] == x);
        }
        if x == s.last() {
            assert(s[s.len() - 1] == x);
        }
        if l.contains(x) {
            let k = choose|k: int| 0 <= k < l.len() && l[k] == x;
            assert(l.push(s.last())[k] == x);
        }
        if n.contains(x) {
            let k = choose|k: int| 0 <= k < n.len() && n[k] == x;
            assert(n.push(s.last())[k] == x);
        }
        assert(l.push(s.last())[l.len() as int] == s.last());
        assert(n.push(s.last())[n.len() as int] == s.last());
    }
}

/// What an [`Item`] holds.
pub struct ItemView {
    pub name: Seq<char>,
    pub lineno_source: usize,
    pub lineno_sandbox: usize,
    pub original: Seq<Seq<char>>,
    pub unused: Seq<Seq<char>>,
}

impl ItemView {
    /// Every pending derive is one of the item's derives, all occurrences of
    /// a pending derive stay pending, and the pending ones keep their order:
    /// the pending derives are exactly the item's derives that are listed as
    /// pending.
    pub open spec fn wf(self) -> bool {
        self.unused == listed_in(self.original, self.unused)
    }

    /// The derives that have been restored, in source order.
    pub open spec fn restored(self) -> Seq<Seq<char>> {
        not_listed_in(self.original, self.unused)
    }
}

/// Every derive an item had is, at any time, either restored or still
/// pending, and never both; together they are as many as the derives the
/// item had.
pub proof fn law_restored_or_pending(it: ItemView, x: Seq<char>)
    requires
        it.wf(),
    ensures
        it.original.contains(x) <==> (it.restored().contains(x) || it.unused.contains(x)),
        !(it.restored().contains(x) && it.unused.contains(x)),
        it.restored().len() + it.unused.len() == it.original.len(),
{
    lemma_listed_split(it.original, it.unused, x);
}

proof fn lemma_not_listed_in_empty(s: Seq<Seq<char>>)
    ensures
        not_listed_in(s, Seq::empty()) == s,
    decreases s.len(),
{
    if s.len() > 0 {
        lemma_not_listed_in_empty(s.drop_last());
        assert(s.drop_last().push(s.last()) =~= s);
    }
}

/// An item none of whose derives is pending any more has them all restored,
/// in the order they were written.
pub proof fn law_all_restored_in_order(it: ItemView)
    requires
        it.wf(),
        it.unused.len() == 0,
    ensures
        it.restored() == it.original,
{
    assert(it.unused =~= Seq::<Seq<char>>::empty());
    lemma_not_listed_in_empty(it.original);
}

/// An item that had its derives stripped.
pub struct Item {
    name: String,
    /// Line number in the user's original source file; used for the report.
    lineno_source: usize,
    /// Line number in the sandbox file; used to re-add derive attributes.
    lineno_sandbox: usize,
    /// Every derive that was on the item, in source order. Never changes.
    derives_original: Vec<String>,
    /// Derives that haven't been restored yet. Shrinks as the compiler
    /// proves each derive is needed; what remains at the end is reported as
    /// unused.
    derives_unused: Vec<String>,
}

impl View for Item {
    type V = ItemView;

    closed spec fn view(&self) -> ItemView {
        ItemView {
            name: self.name@,
            lineno_source: self.lineno_source,
            lineno_sandbox: self.lineno_sandbox,
            original: strs(self.derives_original@),
            unused: strs(self.derives_unused@),
        }
    }
}

impl Item {
    #[verifier::type_invariant]
    spec fn inv(self) -> bool {
        self@.wf()
    }

    pub fn new(name: String, lineno_source: usize, lineno_sandbox: usize, derives: Vec<String>) -> (r:
        Self)
        ensures
            r@.name == name@,
            r@.lineno_source == lineno_source,
            r@.lineno_sandbox == lineno_sandbox,
            r@.original == strs(derives@),
            r@.unused == strs(derives@),
            r@.wf(),
    {
        let original = derives.clone();
        proof {
            assert(strs(original@) =~= strs(derives@));
            lemma_listed_in_all(strs(derives@), strs(derives@));
        }
        Item {
            name,
            lineno_source,
            lineno_sandbox,
            derives_original: original,
            derives_unused: derives,
        }
    }

    /// The name of the item, e.g. `Foo` in `struct Foo`.
    pub fn name(&self) -> (r: &str)
        ensures
            r@ == self@.name,
    {
        self.name.as_str()
    }

    /// Line in the user's original source file.
    pub fn lineno_source(&self) -> (r: usize)
        ensures
            r == self@.lineno_source,
    {
        self.lineno_source
    }

    /// Line in the sandbox file.
    pub fn lineno_sandbox(&self) -> (r: usize)
        ensures
            r == self@.lineno_sandbox,
    {
        self.lineno_sandbox
    }

    /// Derives that haven't been restored yet, in source order.
    pub fn derives_unused(&self) -> (r: &[String])
        ensures
            strs(r@) == self@.unused,
            self@.wf(),
    {
        proof {
            use_type_invariant(self);
        }
        self.derives_unused.as_slice()
    }

    /// Derives that have been restored so far, in source order.
    pub fn derives_restored(&self) -> (r: Vec<&str>)
        ensures
            r@.map_values(|s: &str| s@) == self@.restored(),
    {
        let mut r: Vec<&str> = Vec::new();
        let ghost orig = strs(self.derives_original@);
        let ghost unused = strs(self.derives_unused@);
        let mut i: usize = 0;
        while i < self.derives_original.len()
            invariant
                orig == strs(self.derives_original@),
                unused == strs(self.derives_unused@),
                i <= self.derives_original@.len(),
                r@.map_values(|s: &str| s@) == not_listed_in(orig.take(i as int), unused),
            decreases self.derives_original@.len() - i,
        {
            let d = &self.derives_original[i];
            let mut found = false;
            let mut j: usize = 0;
            while j < self.derives_unused.len()
                invariant
                    unused == strs(self.derives_unused@),
                    j <= self.derives_unused@.len(),
                    found == exists|k: int| 0 <= k < j && unused[k] == d@,
                decreases self.derives_unused@.len() - j,
            {
                proof {
                    assert(unused[j as int] == self.derives_unused@[j as int]@);
                }
                if self.derives_unused[j] == *d {
                    found = true;
                }
                j = j + 1;
            }
            proof {
                assert(orig.take(i as int + 1).drop_last() =~= orig.take(i as int));
                assert(orig.take(i as int + 1).last() == d@);
                assert(found == unused.contains(d@));
            }
            let ghost prev = r@;
            if !found {
                r.push(d.as_str());
                proof {
                    assert(r@.map_values(|s: &str| s@) =~= prev.map_values(|s: &str| s@).push(d@));
                }
            }
            i = i + 1;
        }
        proof {
            assert(orig.take(self.derives_original@.len() as int) == orig);
        }
        r
    }

    /// Marks `derive` as restored: it leaves the pending derives.
    pub fn mark_restored(&mut self, derive: &str)
        ensures
            final(self)@.name == old(self)@.name,
            final(self)@.lineno_source == old(self)@.lineno_source,
            final(self)@.lineno_sandbox == old(self)@.lineno_sandbox,
            final(self)@.original == old(self)@.original,
            final(self)@.unused == without(old(self)@.unused, derive@),
            final(self)@.wf(),
    {
        proof {
            use_type_invariant(&*self);
        }
        let target: String = derive.to_owned();
        let mut kept: Vec<String> = Vec::new();
        let ghost u = strs(self.derives_unused@);
        let mut i: usize = 0;
        while i < self.derives_unused.len()
            invariant
                u == strs(self.derives_unused@),
                target@ == derive@,
                i <= self.derives_unused@.len(),
                strs(kept@) == without(u.take(i as int), derive@),
            decreases self.derives_unused@.len() - i,
        {
            proof {
                assert(u.take(i as int + 1).drop_last() =~= u.take(i as int));
                assert(u.take(i as int + 1).last() == self.derives_unused@[i as int]@);
            }
            if self.derives_unused[i] != target {
                let d = self.derives_unused[i].clone();
                proof {
                    lemma_strs_push(kept@, d);
                }
                kept.push(d);
            }
            i = i + 1;
        }
        proof {
            assert(u.take(self.derives_unused@.len() as int) == u);
            lemma_listed_in_without(self@.original, self@.unused, derive@);
        }
        self.derives_unused = kept;
    }
}

} // verus!

verus! {

/// What an item holds once `derive` is restored on it.
pub open spec fn with_restored(it: ItemView, derive: Seq<char>) -> ItemView {
    ItemView {
        name: it.name,
        lineno_source: it.lineno_source,
        lineno_sandbox: it.lineno_sandbox,
        original: it.original,
        unused: without(it.unused, derive),
    }
}

/// Marking a derive restored takes it, and only it, out of the pending
/// derives; a derive the item had is then among the restored ones, and the
/// item stays well formed.
pub proof fn law_mark_restored(it: ItemView, d: Seq<char>, x: Seq<char>)
    requires
        it.wf(),
    ensures
        with_restored(it, d).wf(),
        !with_restored(it, d).unused.contains(d),
        x != d ==> (with_restored(it, d).unused.contains(x) == it.unused.contains(x)),
        it.original.contains(d) ==> with_restored(it, d).restored().contains(d),
{
    lemma_without_contains(it.unused, d, d);
    lemma_without_contains(it.unused, d, x);
    lemma_listed_in_without(it.original, it.unused, d);
    lemma_listed_split(it.original, without(it.unused, d), d);
}

/// The entries with the `j`-th item of the `i`-th file replaced by `it`.
pub open spec fn with_item(v: Seq<EntryView>, i: int, j: int, it: ItemView) -> Seq<EntryView> {
    v.update(i, (v[i].0, v[i].1.update(j, it)))
}

/// What a sequence of items holds.
pub open spec fn item_views(v: Seq<Item>) -> Seq<ItemView> {
    v.map_values(|i: Item| i@)
}

/// One file's entry: its path and its items.
pub type EntryView = (Seq<char>, Seq<ItemView>);

/// The entries are in strictly increasing path order, so no path occurs
/// twice.
pub open spec fn keys_sorted(v: Seq<EntryView>) -> bool {
    forall|i: int, j: int| 0 <= i < j < v.len() ==> path_less(#[trigger] v[i].0, #[trigger] v[j].0)
}

/// Index of the entry whose path is the same path as `p`.
pub open spec fn has_key_at(v: Seq<EntryView>, p: Seq<char>, i: int) -> bool {
    0 <= i < v.len() && same_path(v[i].0, p)
}

/// `after` is `before` with the items of `path` set to `items`: the entry
/// of the same path keeps its place and its path text and takes the new
/// items, or, where there is none, a new entry is put in somewhere.
pub open spec fn inserted(
    before: Seq<EntryView>,
    after: Seq<EntryView>,
    path: Seq<char>,
    items: Seq<ItemView>,
) -> bool {
    &&& (exists|i: int| has_key_at(before, path, i)) ==> exists|i: int|
        has_key_at(before, path, i) && after == before.update(i, (before[i].0, items))
    &&& !(exists|i: int| has_key_at(before, path, i)) ==> exists|i: int|
        0 <= i <= before.len() && after == before.insert(i, (path, items))
}

/// The items of the entry whose path is the same path as `p`, if any.
pub open spec fn lookup(v: Seq<EntryView>, p: Seq<char>) -> Option<Seq<ItemView>> {
    if exists|i: int| has_key_at(v, p, i) {
        Some(v[choose|i: int| has_key_at(v, p, i)].1)
    } else {
        None
    }
}

/// With the paths in order, at most one entry has a given path.
pub proof fn lemma_key_unique(v: Seq<EntryView>, p: Seq<char>, i: int, k: int)
    requires
        keys_sorted(v),
        has_key_at(v, p, i),
        has_key_at(v, p, k),
    ensures
        i == k,
{
    lemma_path_order(v[i].0, p, v[k].0);
    lemma_path_order(p, v[k].0, v[i].0);
    lemma_path_order(v[i].0, v[k].0, p);
    lemma_path_order(v[k].0, v[i].0, p);
    if i < k {
        assert(path_less(v[i].0, v[k].0));
    } else if k < i {
        assert(path_less(v[k].0, v[i].0));
    }
}

/// What is found under `p` is the entry that has `p`.
pub proof fn lemma_lookup(v: Seq<EntryView>, p: Seq<char>, i: int)
    requires
        keys_sorted(v),
        has_key_at(v, p, i),
    ensures
        lookup(v, p) == Some(v[i].1),
{
    let k = choose|k: int| has_key_at(v, p, k);
    lemma_key_unique(v, p, i, k);
}

/// A write followed by a read: once the items of `path` are set, looking
/// `path` up gives them, and looking up any other path gives what it gave
/// before.
pub proof fn law_insert_then_lookup(
    before: Seq<EntryView>,
    after: Seq<EntryView>,
    path: Seq<char>,
    items: Seq<ItemView>,
    other: Seq<char>,
)
    requires
        keys_sorted(before),
        keys_sorted(after),
        inserted(before, after, path, items),
    ensures
        lookup(after, path) == Some(items),
        !same_path(other, path) ==> lookup(after, other) == lookup(before, other),
{
    if exists|i: int| has_key_at(before, path, i) {
        let i = choose|i: int| has_key_at(before, path, i) && after == before.update(i, (before[i].0, items));
        assert(has_key_at(after, path, i));
        lemma_lookup(after, path, i);
        if !same_path(other, path) {
            if exists|k: int| has_key_at(before, other, k) {
                let k = choose|k: int| has_key_at(before, other, k);
                lemma_path_order(before[k].0, other, path);
                lemma_path_order(other, path, before[k].0);
                lemma_path_order(before[i].0, path, other);
                lemma_path_order(path, other, before[i].0);
                lemma_path_order(before[k].0, before[i].0, path);
                lemma_path_order(before[i].0, before[k].0, path);
                assert(k != i);
                assert(has_key_at(after, other, k));
                lemma_lookup(after, other, k);
                lemma_lookup(before, other, k);
            } else {
                assert forall|k: int| !has_key_at(after, other, k) by {
                    if 0 <= k < after.len() && k != i {
                        assert(after[k] == before[k]);
                        assert(!has_key_at(before, other, k));
                    }
                    if k == i {
                        lemma_path_order(before[i].0, path, other);
                        lemma_path_order(path, other, before[i].0);
                        lemma_path_order(before[i].0, other, path);
                    }
                }
            }
        }
    } else {
        let i = choose|i: int| 0 <= i <= before.len() && after == before.insert(i, (path, items));
        assert(has_key_at(after, path, i)) by {
            lemma_path_order(path, path, path);
        }
        lemma_lookup(after, path, i);
        if !same_path(other, path) {
            if exists|k: int| has_key_at(before, other, k) {
                let k = choose|k: int| has_key_at(before, other, k);
                let k2 = if k < i { k } else { k + 1 };
                assert(after[k2] == before[k]);
                assert(has_key_at(after, other, k2));
                lemma_lookup(after, other, k2);
                lemma_lookup(before, other, k);
            } else {
                assert forall|k: int| !has_key_at(after, other, k) by {
                    if 0 <= k < after.len() && k < i {
                        assert(after[k] == before[k]);
                        assert(!has_key_at(before, other, k));
                    } else if i < k < after.len() {
                        assert(after[k] == before[k - 1]);
                        assert(!has_key_at(before, other, k - 1));
                    } else if k == i {
                        lemma_path_order(path, other, path);
                        lemma_path_order(other, path, other);
                    }
                }
            }
        }
    }
}

/// The stripped items of every file, keyed and ordered by path.
pub struct Items {
    paths: Vec<String>,
    files: Vec<Vec<Item>>,
}

impl View for Items {
    type V = Seq<EntryView>;

    closed spec fn view(&self) -> Seq<EntryView> {
        Seq::new(self.paths@.len(), |i: int| (self.paths@[i]@, item_views(self.files@[i]@)))
    }
}

impl Items {
    /// The two halves line up and the paths are strictly increasing.
    pub closed spec fn wf(self) -> bool {
        &&& self.paths@.len() == self.files@.len()
        &&& keys_sorted(self@)
    }

    /// The files are kept in path order, so no two of them have the same
    /// path, and a path finds at most one file.
    pub proof fn law_paths_in_order(self, p: Seq<char>, i: int, k: int)
        requires
            self.wf(),
        ensures
            keys_sorted(self@),
            has_key_at(self@, p, i) && has_key_at(self@, p, k) ==> i == k,
    {
        if has_key_at(self@, p, i) && has_key_at(self@, p, k) {
            lemma_key_unique(self@, p, i, k);
        }
    }

    /// No items yet.
    pub fn new() -> (r: Self)
        ensures
            r.wf(),
            r@ == Seq::<EntryView>::empty(),
    {
        let r = Items { paths: Vec::new(), files: Vec::new() };
        assert(r@ =~= Seq::<EntryView>::empty());
        r
    }

    /// Number of files.
    pub fn len(&self) -> (r: usize)
        requires
            self.wf(),
        ensures
            r == self@.len(),
    {
        self.paths.len()
    }

    /// Sets the items of `path`, replacing what a file of the same path held
    /// (whose path text is kept), or adding the file at its place in path
    /// order.
    pub fn insert(&mut self, path: String, items: Vec<Item>)
        requires
            old(self).wf(),
        ensures
            final(self).wf(),
            inserted(old(self)@, final(self)@, path@, item_views(items@)),
    {
        let ghost old_view = self@;
        let n = self.paths.len();
        let mut i: usize = 0;
        while i < n
            invariant
                n == self.paths@.len(),
                self.wf(),
                self@ == old_view,
                old_view == old(self)@,
                i <= n,
                forall|j: int| 0 <= j < i ==> path_less(#[trigger] old_view[j].0, path@),
            decreases n - i,
        {
            proof {
                assert(self@[i as int].0 == self.paths@[i as int]@);
            }
            if paths_equal(self.paths[i].as_str(), path.as_str()) {
                self.files[i] = items;
                proof {
                    assert(self@ =~= old_view.update(i as int, (old_view[i as int].0, item_views(items@))));
                    assert(has_key_at(old_view, path@, i as int) && self@ == old_view.update(i as int, (old_view[i as int].0, item_views(items@))));
                    assert forall|a: int, b: int| 0 <= a < b < self@.len() implies path_less(
                        #[trigger] self@[a].0,
                        #[trigger] self@[b].0,
                    ) by {
                        assert(self@[a].0 == old_view[a].0 && self@[b].0 == old_view[b].0);
                    }
                }
                return;
            }
            if path_before(path.as_str(), self.paths[i].as_str()) {
                self.paths.insert(i, path);
                self.files.insert(i, items);
                proof {
                    assert(self@ =~= old_view.insert(i as int, (path@, item_views(items@))));
                    assert(0 <= i <= old_view.len() && self@ == old_view.insert(i as int, (path@, item_views(items@))));
                    assert forall|a: int, b: int| 0 <= a < b < self@.len() implies path_less(
                        #[trigger] self@[a].0,
                        #[trigger] self@[b].0,
                    ) by {
                        if a < i && b == i {
                        } else if a < i && b > i {
                            lemma_path_order(old_view[a].0, path@, old_view[b - 1].0);
                            lemma_path_order(path@, old_view[i as int].0, old_view[b - 1].0);
                        } else if a == i {
                            lemma_path_order(path@, old_view[i as int].0, old_view[b - 1].0);
                        } else {
                        }
                    }
                    assert forall|k: int| !has_key_at(old_view, path@, k) by {
                        if 0 <= k < old_view.len() && same_path(old_view[k].0, path@) {
                            if k < i {
                                lemma_path_order(old_view[k].0, path@, path@);
                            } else if k == i {
                                lemma_path_order(old_view[k].0, path@, old_view[k].0);
                            } else {
                                lemma_path_order(path@, old_view[i as int].0, old_view[k].0);
                                lemma_path_order(old_view[k].0, path@, old_view[k].0);
                            }
                        }
                    }
                }
                return;
            }
            proof {
                lemma_path_order(path@, old_view[i as int].0, path@);
            }
            i = i + 1;
        }
        self.paths.push(path);
        self.files.push(items);
        proof {
            assert(self@ =~= old_view.insert(n as int, (path@, item_views(items@))));
            assert(0 <= n <= old_view.len() && self@ == old_view.insert(n as int, (path@, item_views(items@))));
            assert forall|k: int| !has_key_at(old_view, path@, k) by {
                if 0 <= k < old_view.len() && same_path(old_view[k].0, path@) {
                    lemma_path_order(old_view[k].0, path@, old_view[k].0);
                }
            }
        }
    }

    /// The items of the file whose path is the same path as `path`.
    pub fn get(&self, path: &str) -> (r: Option<&[Item]>)
        requires
            self.wf(),
        ensures
            match r {
                Some(s) => exists|i: int| has_key_at(self@, path@, i) && item_views(s@) == self@[i].1,
                None => forall|i: int| !has_key_at(self@, path@, i),
            },
            match r {
                Some(s) => lookup(self@, path@) == Some(item_views(s@)),
                None => lookup(self@, path@) is None,
            },
    {
        let n = self.paths.len();
        let mut i: usize = 0;
        while i < n
            invariant
                n == self.paths@.len(),
                self.wf(),
                i <= n,
                forall|j: int| 0 <= j < i ==> !#[trigger] has_key_at(self@, path@, j),
            decreases n - i,
        {
            proof {
                assert(self@[i as int].0 == self.paths@[i as int]@);
            }
            if paths_equal(self.paths[i].as_str(), path) {
                proof {
                    assert(has_key_at(self@, path@, i as int));
                    lemma_lookup(self@, path@, i as int);
                }
                return Some(self.files[i].as_slice());
            }
            i = i + 1;
        }
        None
    }

    /// Every file's path and items, in path order.
    pub fn iter(&self) -> (r: Vec<(&str, &[Item])>)
        requires
            self.wf(),
        ensures
            r@.len() == self@.len(),
            forall|i: int|
                0 <= i < r@.len() ==> (#[trigger] r@[i]).0@ == self@[i].0 && item_views(r@[i].1@)
                    == self@[i].1,
    {
        let n = self.paths.len();
        let mut r: Vec<(&str, &[Item])> = Vec::new();
        let mut i: usize = 0;
        while i < n
            invariant
                n == self.paths@.len(),
                self.wf(),
                i <= n,
                r@.len() == i,
                forall|j: int|
                    0 <= j < i ==> (#[trigger] r@[j]).0@ == self@[j].0 && item_views(r@[j].1@)
                        == self@[j].1,
            decreases n - i,
        {
            r.push((self.paths[i].as_str(), self.files[i].as_slice()));
            i = i + 1;
        }
        r
    }

    /// The paths, as stored, in order.
    pub closed spec fn stored_paths(self) -> Seq<String> {
        self.paths@
    }

    /// The items of every file, as stored, in path order.
    pub closed spec fn stored_files(self) -> Seq<Vec<Item>> {
        self.files@
    }

    /// What the stored halves mean: the view pairs each path with its
    /// file's items, and the map is well formed when the halves line up and
    /// the paths increase.
    pub proof fn lemma_stored(self)
        ensures
            self@ == Seq::new(
                self.stored_paths().len(),
                |i: int| (self.stored_paths()[i]@, item_views(self.stored_files()[i]@)),
            ),
            self.wf() <==> (self.stored_paths().len() == self.stored_files().len() && keys_sorted(
                self@,
            )),
    {
    }

    /// The paths in order, and mutable access to every file's items.
    pub fn iter_mut(&mut self) -> (r: (&[String], &mut [Vec<Item>]))
        requires
            old(self).wf(),
        ensures
            r.0@ == old(self).stored_paths(),
            r.1@ == old(self).stored_files(),
            final(self).stored_paths() == old(self).stored_paths(),
            final(self).stored_files() == final(r.1)@,
    {
        (self.paths.as_slice(), self.files.as_mut_slice())
    }

    /// The path of the `i`-th file and its `j`-th item.
    pub fn item_at(&self, i: usize, j: usize) -> (r: (&str, &Item))
        requires
            self.wf(),
            i < self@.len(),
            j < self@[i as int].1.len(),
        ensures
            r.0@ == self@[i as int].0,
            r.1@ == self@[i as int].1[j as int],
    {
        (self.paths[i].as_str(), &self.files[i][j])
    }

    /// Marks `derive` as restored on the `j`-th item of the `i`-th file.
    pub fn mark_restored_at(&mut self, i: usize, j: usize, derive: &str)
        requires
            old(self).wf(),
            i < old(self)@.len(),
            j < old(self)@[i as int].1.len(),
        ensures
            final(self).wf(),
            final(self)@ == with_item(
                old(self)@,
                i as int,
                j as int,
                with_restored(old(self)@[i as int].1[j as int], derive@),
            ),
    {
        let ghost old_view = self@;
        proof {
            assert(old_view[i as int].1[j as int] == self.files@[i as int]@[j as int]@);
        }
        self.files[i][j].mark_restored(derive);
        proof {
            assert(self@ =~= with_item(
                old_view,
                i as int,
                j as int,
                with_restored(old_view[i as int].1[j as int], derive@),
            )) by {
                assert(item_views(self.files@[i as int]@) =~= old_view[i as int].1.update(
                    j as int,
                    with_restored(old_view[i as int].1[j as int], derive@),
                ));
            }
            assert forall|a: int, b: int| 0 <= a < b < self@.len() implies path_less(
                #[trigger] self@[a].0,
                #[trigger] self@[b].0,
            ) by {
                assert(self@[a].0 == old_view[a].0 && self@[b].0 == old_view[b].0);
            }
        }
    }

    /// The `idx`-th item of the file whose path is the same path as
    /// `path`, with the path as the map holds it.
    pub fn get_mut_at(&mut self, path: &str, idx: usize) -> (r: Option<(&str, &mut Item)>)
        requires
            old(self).wf(),
        ensures
            match r {
                Some((p, it)) => exists|i: int|
                    {
                        &&& has_key_at(old(self)@, path@, i)
                        &&& 0 <= idx < old(self)@[i].1.len()
                        &&& p@ == old(self)@[i].0
                        &&& it@ == old(self)@[i].1[idx as int]
                        &&& final(self).stored_paths() == old(self).stored_paths()
                        &&& final(self).stored_files().len() == old(self).stored_files().len()
                        &&& forall|k: int|
                            0 <= k < old(self).stored_files().len() && k != i
                                ==> #[trigger] final(self).stored_files()[k] == old(
                                self,
                            ).stored_files()[k]
                        &&& final(self).stored_files()[i]@ == old(self).stored_files()[i]@.update(
                            idx as int,
                            *final(it),
                        )
                    },
                None => {
                    &&& *final(self) == *old(self)
                    &&& forall|i: int|
                        has_key_at(old(self)@, path@, i) ==> idx >= old(self)@[i].1.len()
                },
            },
    {
        let n = self.paths.len();
        let mut i: usize = 0;
        while i < n
            invariant
                n == self.paths@.len(),
                self.wf(),
                *self == *old(self),
                i <= n,
                forall|j: int| 0 <= j < i ==> !#[trigger] has_key_at(self@, path@, j),
            decreases n - i,
        {
            proof {
                assert(self@[i as int].0 == self.paths@[i as int]@);
            }
            if paths_equal(self.paths[i].as_str(), path) {
                if idx < self.files[i].len() {
                    let ghost old_view = self@;
                    proof {
                        assert(has_key_at(self@, path@, i as int));
                    }
                    let r = (self.paths[i].as_str(), &mut self.files[i][idx]);
                    return Some(r);
                }
                proof {
                    assert forall|k: int| has_key_at(self@, path@, k) implies idx >= self@[k].1.len() by {
                        if k != i {
                            lemma_path_order(self@[k].0, path@, self@[i as int].0);
                            lemma_path_order(self@[i as int].0, path@, self@[k].0);
                            if k < i {
                                assert(path_less(self@[k].0, self@[i as int].0));
                            } else {
                                assert(path_less(self@[i as int].0, self@[k].0));
                            }
                            lemma_path_order(self@[k].0, self@[i as int].0, path@);
                        }
                    }
                }
                return None;
            }
            i = i + 1;
        }
        None
    }
}

} // verus!
