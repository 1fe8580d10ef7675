//! Unix-style paths held as text. Two paths are the same, and one comes
//! before another, by their components, as `std::path::Path` compares them:
//! a leading `/` is the root, a leading `.` is the current directory,
//! `.` elsewhere and empty pieces between slashes are dropped, and
//! components order root < current directory < `..` < names, names by their
//! characters.

use vstd::prelude::*;

use crate::text::{lemma_split_by_nonempty, lemma_views_push, same_chars, split, split_by, views, Separator};

verus! {

broadcast use {vstd::string::group_string_axioms, vstd::slice::group_slice_axioms};

pub open spec fn root_component() -> Seq<char> {
    seq!['/']
}

pub open spec fn cur_dir_component() -> Seq<char> {
    seq!['.']
}

pub open spec fn parent_dir_component() -> Seq<char> {
    seq!['.', '.']
}

/// The pieces of `pieces` that are components: not empty and not `.`.
pub open spec fn keep_components(pieces: Seq<Seq<char>>) -> Seq<Seq<char>>
    decreases pieces.len(),
{
    if pieces.len() == 0 {
        pieces
    } else {
        let rest = keep_components(pieces.drop_last());
        if pieces.last().len() == 0 || pieces.last() == cur_dir_component() {
            rest
        } else {
            rest.push(pieces.last())
        }
    }
}

/// The components of path `s` (`Path::components`): the root as `/`, a
/// leading current directory as `.`, then the names and `..` in order.
pub open spec fn path_components(s: Seq<char>) -> Seq<Seq<char>> {
    let pieces = split_by(s, Separator::Is('/'));
    let lead = if s.len() > 0 && s[0] == '/' {
        seq![root_component()]
    } else if pieces[0] == cur_dir_component() {
        seq![cur_dir_component()]
    } else {
        Seq::<Seq<char>>::empty()
    };
    lead + keep_components(pieces)
}

/// `a` and `b` name the same path.
pub open spec fn same_path(a: Seq<char>, b: Seq<char>) -> bool {
    path_components(a) == path_components(b)
}

/// Rank of a component in `Path`'s order: root, current directory, parent
/// directory, then names.
pub open spec fn component_rank(c: Seq<char>) -> int {
    if c == root_component() {
        0
    } else if c == cur_dir_component() {
        1
    } else if c == parent_dir_component() {
        2
    } else {
        3
    }
}

/// `a` comes before `b` character by character, a proper prefix first.
pub open spec fn chars_less(a: Seq<char>, b: Seq<char>) -> bool
    decreases a.len(),
{
    if a.len() == 0 {
        b.len() > 0
    } else if b.len() == 0 {
        false
    } else if a[0] != b[0] {
        a[0] < b[0]
    } else {
        chars_less(a.drop_first(), b.drop_first())
    }
}

pub open spec fn component_less(a: Seq<char>, b: Seq<char>) -> bool {
    component_rank(a) < component_rank(b) || (component_rank(a) == component_rank(b)
        && component_rank(a) == 3 && chars_less(a, b))
}

/// Lexicographic order on component sequences, a proper prefix first.
pub open spec fn components_less(a: Seq<Seq<char>>, b: Seq<Seq<char>>) -> bool
    decreases a.len(),
{
    if a.len() == 0 {
        b.len() > 0
    } else if b.len() == 0 {
        false
    } else if a[0] != b[0] {
        component_less(a[0], b[0])
    } else {
        components_less(a.drop_first(), b.drop_first())
    }
}

/// Path `a` sorts before path `b` (`Path`'s `Ord`).
pub open spec fn path_less(a: Seq<char>, b: Seq<char>) -> bool {
    components_less(path_components(a), path_components(b))
}

pub proof fn lemma_chars_less_trans(a: Seq<char>, b: Seq<char>, c: Seq<char>)
    requires
        chars_less(a, b),
        chars_less(b, c),
    ensures
        chars_less(a, c),
    decreases a.len(),
{
    if a.len() > 0 && b.len() > 0 && c.len() > 0 && a[0] == b[0] && b[0] == c[0] {
        lemma_chars_less_trans(a.drop_first(), b.drop_first(), c.drop_first());
    }
}

pub proof fn lemma_chars_less_total(a: Seq<char>, b: Seq<char>)
    ensures
        a == b || chars_less(a, b) || chars_less(b, a),
        !(chars_less(a, b) && chars_less(b, a)),
        !chars_less(a, a),
    decreases a.len(),
{
    if a.len() > 0 && b.len() > 0 {
        if a[0] == b[0] {
            lemma_chars_less_total(a.drop_first(), b.drop_first());
            if a.drop_first() == b.drop_first() {
                assert(a =~= seq![a[0]] + a.drop_first());
                assert(b =~= seq![b[0]] + b.drop_first());
            }
        }
    } else if a.len() == 0 && b.len() == 0 {
        assert(a =~= b);
    }
    if a.len() > 0 {
        lemma_chars_less_total(a.drop_first(), a.drop_first());
    }
}

pub proof fn lemma_component_less_order(a: Seq<char>, b: Seq<char>, c: Seq<char>)
    ensures
        a == b || component_less(a, b) || component_less(b, a),
        !(component_less(a, b) && component_less(b, a)),
        !component_less(a, a),
        component_less(a, b) && component_less(b, c) ==> component_less(a, c),
{
    lemma_chars_less_total(a, b);
    lemma_chars_less_total(a, a);
    if component_less(a, b) && component_less(b, c) && component_rank(a) == 3 && component_rank(c)
        == 3 {
        lemma_chars_less_trans(a, b, c);
    }
    if component_rank(a) == component_rank(b) && component_rank(a) < 3 {
        assert(a == b);
    }
}

pub proof fn lemma_components_less_trans(a: Seq<Seq<char>>, b: Seq<Seq<char>>, c: Seq<Seq<char>>)
    requires
        components_less(a, b),
        components_less(b, c),
    ensures
        components_less(a, c),
    decreases a.len(),
{
    if a.len() > 0 && b.len() > 0 && c.len() > 0 {
        lemma_component_less_order(a[0], b[0], c[0]);
        lemma_component_less_order(b[0], c[0], a[0]);
        lemma_component_less_order(a[0], c[0], b[0]);
        if a[0] == b[0] && b[0] == c[0] {
            lemma_components_less_trans(a.drop_first(), b.drop_first(), c.drop_first());
        }
    }
}

pub proof fn lemma_components_less_total(a: Seq<Seq<char>>, b: Seq<Seq<char>>)
    ensures
        a == b || components_less(a, b) || components_less(b, a),
        !(components_less(a, b) && components_less(b, a)),
        !components_less(a, a),
    decreases a.len(),
{
    if a.len() > 0 && b.len() > 0 {
        lemma_component_less_order(a[0], b[0], a[0]);
        if a[0] == b[0] {
            lemma_components_less_total(a.drop_first(), b.drop_first());
            if a.drop_first() == b.drop_first() {
                assert(a =~= seq![a[0]] + a.drop_first());
                assert(b =~= seq![b[0]] + b.drop_first());
            }
        }
    } else if a.len() == 0 && b.len() == 0 {
        assert(a =~= b);
    }
    if a.len() > 0 {
        lemma_components_less_total(a.drop_first(), a.drop_first());
    }
}

/// `path_less` is a strict total order on the paths as `same_path` tells
/// them apart.
pub proof fn lemma_path_order(a: Seq<char>, b: Seq<char>, c: Seq<char>)
    ensures
        same_path(a, b) || path_less(a, b) || path_less(b, a),
        !(path_less(a, b) && path_less(b, a)),
        !path_less(a, a),
        path_less(a, b) && path_less(b, c) ==> path_less(a, c),
        same_path(a, b) ==> !path_less(a, b),
        same_path(a, b) && path_less(b, c) ==> path_less(a, c),
        path_less(a, b) && same_path(b, c) ==> path_less(a, c),
{
    lemma_components_less_total(path_components(a), path_components(b));
    lemma_components_less_total(path_components(a), path_components(a));
    if path_less(a, b) && path_less(b, c) {
        lemma_components_less_trans(path_components(a), path_components(b), path_components(c));
    }
}

/// Computes [`keep_components`] of `pieces`.
fn components_of_pieces(pieces: &Vec<Vec<char>>, lead: Vec<Vec<char>>) -> (r: Vec<Vec<char>>)
    ensures
        views(r@) == views(lead@) + keep_components(views(pieces@)),
{
    let ghost pv = views(pieces@);
    let ghost lv = views(lead@);
    let mut r = lead;
    let mut k: usize = 0;
    while k < pieces.len()
        invariant
            pv == views(pieces@),
            k <= pieces@.len(),
            views(r@) == lv + keep_components(pv.take(k as int)),
        decreases pieces@.len() - k,
    {
        proof {
            assert(pv.take(k as int + 1).drop_last() =~= pv.take(k as int));
        }
        let p = &pieces[k];
        let dot = p.len() == 1 && p[0] == '.';
        proof {
            if p@.len() == 1 {
                assert(dot == (p@ =~= cur_dir_component()));
            } else {
                assert(p@.len() != cur_dir_component().len());
            }
        }
        if p.len() > 0 && !dot {
            let c = p.clone();
            proof {
                assert(c@ =~= p@);
                lemma_views_push(r@, c);
            }
            r.push(c);
        }
        k = k + 1;
    }
    proof {
        assert(pv.take(pieces@.len() as int) == pv);
    }
    r
}

/// The components of `s` ([`path_components`]).
pub fn components(s: &[char]) -> (r: Vec<Vec<char>>)
    ensures
        views(r@) == path_components(s@),
{
    let pieces = split(s, Separator::Is('/'));
    proof {
        lemma_split_by_nonempty(s@, Separator::Is('/'));
    }
    let mut lead: Vec<Vec<char>> = Vec::new();
    if s.len() > 0 && s[0] == '/' {
        lead.push(vec!['/']);
    } else if pieces[0].len() == 1 && pieces[0][0] == '.' {
        lead.push(vec!['.']);
    }
    proof {
        let p0 = views(pieces@)[0];
        assert(p0 == pieces@[0]@);
        if p0.len() == 1 {
            assert((pieces@[0]@[0] == '.') == (p0 =~= cur_dir_component()));
        }
        if lead@.len() == 1 {
            assert(lead@[0]@ =~= seq!['/'] || lead@[0]@ =~= seq!['.']);
        }
        assert(views(lead@) =~= (if s@.len() > 0 && s@[0] == '/' {
            seq![root_component()]
        } else if p0 == cur_dir_component() {
            seq![cur_dir_component()]
        } else {
            Seq::<Seq<char>>::empty()
        }));
    }
    components_of_pieces(&pieces, lead)
}

fn same_component_lists(a: &Vec<Vec<char>>, b: &Vec<Vec<char>>) -> (r: bool)
    ensures
        r == (views(a@) == views(b@)),
{
    if a.len() != b.len() {
        proof {
            assert(views(a@).len() != views(b@).len());
        }
        return false;
    }
    let mut i: usize = 0;
    while i < a.len()
        invariant
            a@.len() == b@.len(),
            i <= a@.len(),
            forall|j: int| 0 <= j < i ==> #[trigger] a@[j]@ == b@[j]@,
        decreases a@.len() - i,
    {
        if !same_chars(a[i].as_slice(), b[i].as_slice()) {
            proof {
                assert(views(a@)[i as int] != views(b@)[i as int]);
            }
            return false;
        }
        i = i + 1;
    }
    proof {
        assert(views(a@) =~= views(b@));
    }
    true
}

/// `a` and `b` name the same path ([`same_path`]).
pub fn paths_equal(a: &str, b: &str) -> (r: bool)
    ensures
        r == same_path(a@, b@),
{
    let ac = crate::text::chars_of(a);
    let bc = crate::text::chars_of(b);
    let ca = components(ac.as_slice());
    let cb = components(bc.as_slice());
    same_component_lists(&ca, &cb)
}

fn rank_of(c: &[char]) -> (r: u8)
    ensures
        r as int == component_rank(c@),
{
    if c.len() == 1 && c[0] == '/' {
        assert(c@ =~= root_component());
        0
    } else if c.len() == 1 && c[0] == '.' {
        assert(c@ =~= cur_dir_component());
        1
    } else if c.len() == 2 && c[0] == '.' && c[1] == '.' {
        assert(c@ =~= parent_dir_component());
        2
    } else {
        proof {
            if c@.len() == 1 {
                assert(c@ != root_component() && c@ != cur_dir_component());
            }
            if c@.len() == 2 {
                assert(c@ != parent_dir_component());
            }
        }
        3
    }
}

fn chars_less_exec(a: &[char], b: &[char]) -> (r: bool)
    ensures
        r == chars_less(a@, b@),
{
    let mut i: usize = 0;
    let na = a.len();
    let nb = b.len();
    assert(a@.skip(0) == a@ && b@.skip(0) == b@);
    while i < na && i < nb && a[i] == b[i]
        invariant
            na == a@.len(),
            nb == b@.len(),
            i <= na,
            i <= nb,
            chars_less(a@, b@) == chars_less(a@.skip(i as int), b@.skip(i as int)),
        decreases na - i,
    {
        proof {
            assert(a@.skip(i as int).drop_first() =~= a@.skip(i as int + 1));
            assert(b@.skip(i as int).drop_first() =~= b@.skip(i as int + 1));
        }
        i = i + 1;
    }
    if i == na {
        i < nb
    } else if i == nb {
        false
    } else {
        a[i] < b[i]
    }
}

fn component_less_exec(a: &[char], b: &[char]) -> (r: bool)
    ensures
        r == component_less(a@, b@),
{
    let ra = rank_of(a);
    let rb = rank_of(b);
    ra < rb || (ra == rb && ra == 3 && chars_less_exec(a, b))
}

fn components_less_exec(a: &Vec<Vec<char>>, b: &Vec<Vec<char>>) -> (r: bool)
    ensures
        r == components_less(views(a@), views(b@)),
{
    let ghost av = views(a@);
    let ghost bv = views(b@);
    let mut i: usize = 0;
    assert(av.skip(0) == av && bv.skip(0) == bv);
    while i < a.len() && i < b.len() && same_chars(a[i].as_slice(), b[i].as_slice())
        invariant
            av == views(a@),
            bv == views(b@),
            i <= a@.len(),
            i <= b@.len(),
            components_less(av, bv) == components_less(av.skip(i as int), bv.skip(i as int)),
        decreases a@.len() - i,
    {
        proof {
            assert(av.skip(i as int).drop_first() =~= av.skip(i as int + 1));
            assert(bv.skip(i as int).drop_first() =~= bv.skip(i as int + 1));
            assert(av.skip(i as int)[0] == bv.skip(i as int)[0]);
        }
        i = i + 1;
    }
    if i == a.len() {
        i < b.len()
    } else if i == b.len() {
        false
    } else {
        proof {
            assert(av.skip(i as int)[0] != bv.skip(i as int)[0]);
        }
        component_less_exec(a[i].as_slice(), b[i].as_slice())
    }
}

/// Path `a` sorts before path `b` ([`path_less`]).
pub fn path_before(a: &str, b: &str) -> (r: bool)
    ensures
        r == path_less(a@, b@),
{
    let ac = crate::text::chars_of(a);
    let bc = crate::text::chars_of(b);
    let ca = components(ac.as_slice());
    let cb = components(bc.as_slice());
    components_less_exec(&ca, &cb)
}

} // verus!
