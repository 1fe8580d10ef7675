//! Character-level helpers shared by the diagnostic matcher and the source
//! editors. Text is handled as sequences of `char`; each helper states, over
//! `Seq<char>`, what `str`'s method of the same purpose computes.

use vstd::prelude::*;

verus! {

broadcast use {vstd::string::group_string_axioms, vstd::slice::group_slice_axioms};

/// `c` is an ASCII letter or digit (`char::is_ascii_alphanumeric`).
pub open spec fn is_ascii_alnum(c: char) -> bool {
    ('a' <= c && c <= 'z') || ('A' <= c && c <= 'Z') || ('0' <= c && c <= '9')
}

/// `c` is an ASCII upper-case letter (`char::is_ascii_uppercase`).
pub open spec fn is_ascii_upper(c: char) -> bool {
    'A' <= c && c <= 'Z'
}

/// `c` has the Unicode `White_Space` property (`char::is_whitespace`).
pub open spec fn is_white(c: char) -> bool {
    ||| c == ' '
    ||| ('\t' <= c && c <= '\r')
    ||| c == '\u{85}'
    ||| c == '\u{a0}'
    ||| c == '\u{1680}'
    ||| ('\u{2000}' <= c && c <= '\u{200a}')
    ||| c == '\u{2028}'
    ||| c == '\u{2029}'
    ||| c == '\u{202f}'
    ||| c == '\u{205f}'
    ||| c == '\u{3000}'
}

/// `c` may stand in a Rust path as the tool reads one: an identifier
/// character or a colon.
pub open spec fn is_path_char(c: char) -> bool {
    is_ascii_alnum(c) || c == '_' || c == ':'
}

/// `c` may stand in an identifier (ASCII letters, digits, underscore).
pub open spec fn is_ident_char(c: char) -> bool {
    is_ascii_alnum(c) || c == '_'
}

pub fn ascii_alnum(c: char) -> (r: bool)
    ensures
        r == is_ascii_alnum(c),
{
    ('a' <= c && c <= 'z') || ('A' <= c && c <= 'Z') || ('0' <= c && c <= '9')
}

pub fn ascii_upper(c: char) -> (r: bool)
    ensures
        r == is_ascii_upper(c),
{
    'A' <= c && c <= 'Z'
}

pub fn white(c: char) -> (r: bool)
    ensures
        r == is_white(c),
{
    c == ' ' || ('\t' <= c && c <= '\r') || c == '\u{85}' || c == '\u{a0}' || c == '\u{1680}'
        || ('\u{2000}' <= c && c <= '\u{200a}') || c == '\u{2028}' || c == '\u{2029}' || c
        == '\u{202f}' || c == '\u{205f}' || c == '\u{3000}'
}

/// Which characters separate the pieces that [`split`] returns.
#[derive(Clone, Copy)]
pub enum Separator {
    /// Every character that is not a [`is_path_char`].
    NonPathChar,
    /// Every character that is not a [`is_ident_char`].
    NonIdentChar,
    /// Exactly this character.
    Is(char),
}

impl Separator {
    pub open spec fn separates(self, c: char) -> bool {
        match self {
            Separator::NonPathChar => !is_path_char(c),
            Separator::NonIdentChar => !is_ident_char(c),
            Separator::Is(x) => c == x,
        }
    }

    pub fn test(self, c: char) -> (r: bool)
        ensures
            r == self.separates(c),
    {
        match self {
            Separator::NonPathChar => !(ascii_alnum(c) || c == '_' || c == ':'),
            Separator::NonIdentChar => !(ascii_alnum(c) || c == '_'),
            Separator::Is(x) => c == x,
        }
    }
}

/// The character sequences held by a vector of character vectors.
pub open spec fn views(v: Seq<Vec<char>>) -> Seq<Seq<char>> {
    v.map_values(|x: Vec<char>| x@)
}

pub proof fn lemma_views_push(v: Seq<Vec<char>>, x: Vec<char>)
    ensures
        views(v.push(x)) == views(v).push(x@),
{
    assert(views(v.push(x)) =~= views(v).push(x@));
}

/// The pieces of `s` between separators, as `str::split` yields them: one
/// more piece than there are separators, empty pieces included.
pub open spec fn split_by(s: Seq<char>, sep: Separator) -> Seq<Seq<char>>
    decreases s.len(),
{
    if s.len() == 0 {
        seq![Seq::<char>::empty()]
    } else {
        let rest = split_by(s.drop_last(), sep);
        if sep.separates(s.last()) {
            rest.push(Seq::<char>::empty())
        } else {
            rest.update(rest.len() - 1, rest.last().push(s.last()))
        }
    }
}

pub proof fn lemma_split_by_nonempty(s: Seq<char>, sep: Separator)
    ensures
        split_by(s, sep).len() >= 1,
    decreases s.len(),
{
    if s.len() > 0 {
        lemma_split_by_nonempty(s.drop_last(), sep);
    }
}

/// Splits `s` at every separator, as `str::split` does.
pub fn split(s: &[char], sep: Separator) -> (r: Vec<Vec<char>>)
    ensures
        views(r@) == split_by(s@, sep),
{
    let mut done: Vec<Vec<char>> = Vec::new();
    let mut cur: Vec<char> = Vec::new();
    let mut i: usize = 0;
    while i < s.len()
        invariant
            i <= s@.len(),
            views(done@).push(cur@) == split_by(s@.take(i as int), sep),
        decreases s@.len() - i,
    {
        proof {
            lemma_split_by_nonempty(s@.take(i as int), sep);
            assert(s@.take(i as int + 1).drop_last() == s@.take(i as int));
        }
        let c = s[i];
        let ghost prev = views(done@).push(cur@);
        if sep.test(c) {
            proof {
                lemma_views_push(done@, cur);
            }
            let finished = cur;
            done.push(finished);
            cur = Vec::new();
            proof {
                assert(views(done@).push(cur@) =~= prev.push(Seq::<char>::empty()));
            }
        } else {
            cur.push(c);
            proof {
                assert(views(done@).push(cur@) =~= prev.update(prev.len() - 1, prev.last().push(c)));
            }
        }
        i = i + 1;
    }
    proof {
        lemma_views_push(done@, cur);
        assert(s@.take(s@.len() as int) == s@);
    }
    let finished = cur;
    done.push(finished);
    done
}

/// `a` and `b` hold the same characters.
pub fn same_chars(a: &[char], b: &[char]) -> (r: bool)
    ensures
        r == (a@ == b@),
{
    if a.len() != b.len() {
        return false;
    }
    let mut i: usize = 0;
    while i < a.len()
        invariant
            a@.len() == b@.len(),
            i <= a@.len(),
            forall|j: int| 0 <= j < i ==> a@[j] == b@[j],
        decreases a@.len() - i,
    {
        if a[i] != b[i] {
            return false;
        }
        i = i + 1;
    }
    proof {
        assert(a@ =~= b@);
    }
    true
}

/// The characters of `s`, in order.
pub fn chars_of(s: &str) -> (r: Vec<char>)
    ensures
        r@ == s@,
{
    let mut r: Vec<char> = Vec::new();
    for c in it: s.chars()
        invariant
            r@ == it.seq().take(it.index() as int),
    {
        r.push(c);
    }
    r
}

/// The string made of the characters of `chars`, in order; calls
/// `FromIterator<&char> for String`, which appends each character in turn.
#[verifier::external_body]
pub(crate) fn string_of(chars: &[char]) -> (r: String)
    ensures
        r@ == chars@,
{
    chars.iter().collect()
}

/// Copies `s[from..to]`.
pub fn slice_chars(s: &[char], from: usize, to: usize) -> (r: Vec<char>)
    requires
        from <= to <= s@.len(),
    ensures
        r@ == s@.subrange(from as int, to as int),
{
    let mut r: Vec<char> = Vec::new();
    let mut i = from;
    while i < to
        invariant
            from <= i <= to <= s@.len(),
            r@ == s@.subrange(from as int, i as int),
        decreases to - i,
    {
        r.push(s[i]);
        i = i + 1;
    }
    r
}

/// Appends `more` to `v`.
pub fn push_all(v: &mut Vec<char>, more: &[char])
    ensures
        final(v)@ == old(v)@ + more@,
{
    let mut i: usize = 0;
    while i < more.len()
        invariant
            i <= more@.len(),
            v@ == old(v)@ + more@.take(i as int),
        decreases more@.len() - i,
    {
        v.push(more[i]);
        i = i + 1;
        proof {
            assert(more@.take(i as int) == more@.take(i as int - 1).push(more@[i as int - 1]));
        }
    }
    proof {
        assert(more@.take(more@.len() as int) == more@);
    }
}

/// `s` with leading and trailing whitespace removed (`str::trim`).
pub open spec fn trim_white(s: Seq<char>) -> Seq<char> {
    trim_white_end(trim_white_start(s))
}

pub open spec fn trim_white_start(s: Seq<char>) -> Seq<char>
    decreases s.len(),
{
    if s.len() > 0 && is_white(s[0]) {
        trim_white_start(s.drop_first())
    } else {
        s
    }
}

pub open spec fn trim_white_end(s: Seq<char>) -> Seq<char>
    decreases s.len(),
{
    if s.len() > 0 && is_white(s.last()) {
        trim_white_end(s.drop_last())
    } else {
        s
    }
}

/// Index range `[start, end)` of `s` that [`trim_white`] keeps.
pub fn trim_white_range(s: &[char]) -> (r: (usize, usize))
    ensures
        r.0 <= r.1 <= s@.len(),
        s@.subrange(r.0 as int, r.1 as int) == trim_white(s@),
        s@.subrange(r.0 as int, s@.len() as int) == trim_white_start(s@),
{
    let mut a: usize = 0;
    assert(s@.subrange(0, s@.len() as int) == s@);
    while a < s.len() && white(s[a])
        invariant
            a <= s@.len(),
            trim_white_start(s@) == trim_white_start(s@.subrange(a as int, s@.len() as int)),
        decreases s@.len() - a,
    {
        proof {
            let t = s@.subrange(a as int, s@.len() as int);
            assert(t.drop_first() =~= s@.subrange(a as int + 1, s@.len() as int));
        }
        a = a + 1;
    }
    proof {
        assert(trim_white_start(s@.subrange(a as int, s@.len() as int)) == s@.subrange(
            a as int,
            s@.len() as int,
        ));
    }
    let mut b: usize = s.len();
    assert(trim_white_start(s@) == s@.subrange(a as int, b as int));
    while b > a && white(s[b - 1])
        invariant
            a <= b <= s@.len(),
            trim_white(s@) == trim_white_end(s@.subrange(a as int, b as int)),
        decreases b,
    {
        proof {
            let t = s@.subrange(a as int, b as int);
            assert(t.drop_last() =~= s@.subrange(a as int, b as int - 1));
        }
        b = b - 1;
    }
    (a, b)
}

/// The first index at which `pat` occurs in `s`, as `str::find` gives it.
pub open spec fn find_seq(s: Seq<char>, pat: Seq<char>) -> Option<int>
    decreases s.len(),
{
    if s.len() < pat.len() {
        None
    } else if s.take(pat.len() as int) == pat {
        Some(0)
    } else if s.len() == 0 {
        None
    } else {
        match find_seq(s.drop_first(), pat) {
            Some(i) => Some(i + 1),
            None => None,
        }
    }
}

/// `pat` occurs in `s` starting at index `j`.
pub open spec fn occurs(s: Seq<char>, j: int, pat: Seq<char>) -> bool {
    0 <= j && j + pat.len() <= s.len() && s.subrange(j, j + pat.len()) == pat
}

pub proof fn lemma_find_seq(s: Seq<char>, pat: Seq<char>)
    ensures
        match find_seq(s, pat) {
            Some(i) => {
                &&& occurs(s, i, pat)
                &&& forall|j: int| 0 <= j < i ==> !#[trigger] occurs(s, j, pat)
            },
            None => forall|j: int| !#[trigger] occurs(s, j, pat),
        },
    decreases s.len(),
{
    if s.len() < pat.len() {
    } else if s.take(pat.len() as int) == pat {
        assert(s.subrange(0, pat.len() as int) == s.take(pat.len() as int));
    } else if s.len() == 0 {
        assert(pat.len() == 0 ==> s.take(0) =~= pat);
    } else {
        lemma_find_seq(s.drop_first(), pat);
        let t = s.drop_first();
        assert forall|j: int| 1 <= j implies #[trigger] occurs(s, j, pat) == occurs(t, j - 1, pat) by {
            if j + pat.len() <= s.len() {
                assert(t.len() == s.len() - 1);
                assert(s.subrange(j, j + pat.len()) =~= t.subrange(j - 1, j - 1 + pat.len()));
            }
        }
        assert(s.subrange(0, pat.len() as int) == s.take(pat.len() as int));
    }
}

/// `pat` occurs in `s` at index `at`.
pub fn occurs_at(s: &[char], at: usize, pat: &[char]) -> (r: bool)
    requires
        at <= s@.len(),
    ensures
        r == occurs(s@, at as int, pat@),
{
    if pat.len() > s.len() - at {
        return false;
    }
    assert(at + pat@.len() <= s@.len());
    let n = pat.len();
    let mut k: usize = 0;
    while k < n
        invariant
            n == pat@.len(),
            at + n <= s@.len(),
            s@.len() <= usize::MAX,
            k <= n,
            forall|j: int| 0 <= j < k ==> s@[at + j] == pat@[j],
        decreases n - k,
    {
        let p: usize = at + k;
        if s[p] != pat[k] {
            proof {
                assert(s@.subrange(at as int, at + pat@.len())[k as int] != pat@[k as int]);
            }
            return false;
        }
        k = k + 1;
    }
    proof {
        assert(s@.subrange(at as int, at + pat@.len()) =~= pat@);
    }
    true
}

/// First index at or after `from` where `pat` occurs in `s`.
pub fn find_from(s: &[char], from: usize, pat: &[char]) -> (r: Option<usize>)
    requires
        from <= s@.len(),
    ensures
        match find_seq(s@.subrange(from as int, s@.len() as int), pat@) {
            Some(i) => r == Some((from + i) as usize),
            None => r is None,
        },
        r matches Some(i) ==> occurs(s@, i as int, pat@) && from <= i,
{
    let ghost rest = s@.subrange(from as int, s@.len() as int);
    let _len = s.len();
    proof {
        lemma_find_seq(rest, pat@);
        assert forall|j: int| 0 <= j implies #[trigger] occurs(rest, j, pat@) == occurs(s@, from + j, pat@) by {
            if j + pat@.len() <= rest.len() {
                assert(rest.subrange(j, j + pat@.len()) =~= s@.subrange(from + j, from + j + pat@.len()));
            }
        }
    }
    let mut i = from;
    while pat.len() <= s.len() - i
        invariant
            from <= i <= s@.len(),
            s@.len() <= usize::MAX,
            rest == s@.subrange(from as int, s@.len() as int),
            forall|j: int| 0 <= j ==> #[trigger] occurs(rest, j, pat@) == occurs(s@, from + j, pat@),
            forall|j: int| from <= j < i ==> !occurs(s@, j, pat@),
        decreases s@.len() - i,
    {
        if occurs_at(s, i, pat) {
            proof {
                lemma_find_seq(rest, pat@);
                assert(occurs(rest, i - from, pat@));
                let k = find_seq(rest, pat@)->0;
                assert(!occurs(rest, k, pat@) || k >= i - from);
                if k > i - from {
                    assert(!occurs(rest, i - from, pat@));
                }
            }
            return Some(i);
        }
        proof {
            if i == s@.len() {
                assert(s@.subrange(i as int, i as int) =~= pat@);
            }
        }
        i = i + 1;
    }
    proof {
        assert forall|j: int| 0 <= j implies !occurs(rest, j, pat@) by {
            assert(occurs(rest, j, pat@) == occurs(s@, from + j, pat@));
        }
    }
    None
}

/// The decimal digit `d` (below ten) as a character.
pub open spec fn digit_char(d: nat) -> char {
    seq!['0', '1', '2', '3', '4', '5', '6', '7', '8', '9'][d as int]
}

/// `n` written in decimal, as `usize`'s `Display` writes it.
pub open spec fn decimal(n: nat) -> Seq<char>
    decreases n,
{
    if n < 10 {
        seq![digit_char(n)]
    } else {
        decimal(n / 10).push(digit_char(n % 10))
    }
}

/// [`decimal`] of `n`.
pub fn decimal_of(n: usize) -> (r: Vec<char>)
    ensures
        r@ == decimal(n as nat),
    decreases n,
{
    let digits = ['0', '1', '2', '3', '4', '5', '6', '7', '8', '9'];
    proof {
        assert(digits@ =~= seq!['0', '1', '2', '3', '4', '5', '6', '7', '8', '9']);
    }
    if n < 10 {
        let r = vec![digits[n]];
        assert(r@ =~= decimal(n as nat));
        r
    } else {
        let mut r = decimal_of(n / 10);
        r.push(digits[n % 10]);
        r
    }
}

/// The entries of `xs` joined with `sep` between each two (`join`).
pub open spec fn join_with(xs: Seq<Seq<char>>, sep: Seq<char>) -> Seq<char>
    decreases xs.len(),
{
    if xs.len() == 0 {
        Seq::empty()
    } else if xs.len() == 1 {
        xs[0]
    } else {
        join_with(xs.drop_last(), sep) + sep + xs.last()
    }
}

/// Appends [`join_with`] of `xs` and `sep` to `out`.
pub fn push_joined(out: &mut Vec<char>, xs: &[String], sep: &[char])
    ensures
        final(out)@ == old(out)@ + join_with(xs@.map_values(|s: String| s@), sep@),
{
    let ghost v = xs@.map_values(|s: String| s@);
    let n = xs.len();
    let mut i: usize = 0;
    assert(v.take(0) =~= Seq::<Seq<char>>::empty());
    while i < n
        invariant
            n == xs@.len(),
            v == xs@.map_values(|s: String| s@),
            i <= n,
            out@ == old(out)@ + join_with(v.take(i as int), sep@),
        decreases n - i,
    {
        proof {
            assert(v.take(i as int + 1).drop_last() =~= v.take(i as int));
            assert(v.take(i as int + 1).last() == xs@[i as int]@);
        }
        if i > 0 {
            push_all(out, sep);
        }
        let c = chars_of(xs[i].as_str());
        push_all(out, c.as_slice());
        proof {
            if i == 0 {
                assert(v.take(1) =~= seq![v[0]]);
            }
        }
        i = i + 1;
    }
    proof {
        assert(v.take(n as int) == v);
    }
}

/// Appends [`join_with`] of `xs` and `sep` to `out`.
pub fn push_joined_strs(out: &mut Vec<char>, xs: &[&str], sep: &[char])
    ensures
        final(out)@ == old(out)@ + join_with(xs@.map_values(|s: &str| s@), sep@),
{
    let ghost v = xs@.map_values(|s: &str| s@);
    let n = xs.len();
    let mut i: usize = 0;
    assert(v.take(0) =~= Seq::<Seq<char>>::empty());
    while i < n
        invariant
            n == xs@.len(),
            v == xs@.map_values(|s: &str| s@),
            i <= n,
            out@ == old(out)@ + join_with(v.take(i as int), sep@),
        decreases n - i,
    {
        proof {
            assert(v.take(i as int + 1).drop_last() =~= v.take(i as int));
            assert(v.take(i as int + 1).last() == xs@[i as int]@);
        }
        if i > 0 {
            push_all(out, sep);
        }
        let c = chars_of(xs[i]);
        push_all(out, c.as_slice());
        proof {
            if i == 0 {
                assert(v.take(1) =~= seq![v[0]]);
            }
        }
        i = i + 1;
    }
    proof {
        assert(v.take(n as int) == v);
    }
}


/// Splitting a text that ends in a separator followed by `y`, which holds no
/// separator, gives `y` as the last piece.
pub proof fn lemma_split_by_last_piece(pre: Seq<char>, y: Seq<char>, sep: Separator)
    requires
        pre.len() > 0,
        sep.separates(pre.last()),
        forall|i: int| 0 <= i < y.len() ==> !sep.separates(#[trigger] y[i]),
    ensures
        split_by(pre + y, sep).len() == split_by(pre, sep).len(),
        split_by(pre + y, sep).last() == y,
    decreases y.len(),
{
    if y.len() == 0 {
        assert(pre + y =~= pre);
        lemma_split_by_nonempty(pre.drop_last(), sep);
    } else {
        let z = y.drop_last();
        assert forall|i: int| 0 <= i < z.len() implies !sep.separates(#[trigger] z[i]) by {
            assert(z[i] == y[i]);
        }
        lemma_split_by_last_piece(pre, z, sep);
        assert((pre + y).drop_last() =~= pre + z);
        assert((pre + y).last() == y[y.len() - 1]);
        lemma_split_by_nonempty(pre + z, sep);
        assert(z.push(y.last()) =~= y);
    }
}

/// Whitespace around a text that neither starts nor ends in whitespace is
/// what [`trim_white`] takes away.
pub proof fn lemma_trim_white_around(w1: Seq<char>, b: Seq<char>, w2: Seq<char>)
    requires
        b.len() > 0,
        !is_white(b[0]),
        !is_white(b.last()),
        forall|i: int| 0 <= i < w1.len() ==> is_white(#[trigger] w1[i]),
        forall|i: int| 0 <= i < w2.len() ==> is_white(#[trigger] w2[i]),
    ensures
        trim_white(w1 + b + w2) == b,
{
    lemma_trim_white_start_drops(w1, b + w2);
    assert(w1 + b + w2 =~= w1 + (b + w2));
    lemma_trim_white_end_drops(b, w2);
}

proof fn lemma_trim_white_start_drops(w: Seq<char>, t: Seq<char>)
    requires
        t.len() > 0,
        !is_white(t[0]),
        forall|i: int| 0 <= i < w.len() ==> is_white(#[trigger] w[i]),
    ensures
        trim_white_start(w + t) == t,
    decreases w.len(),
{
    if w.len() == 0 {
        assert(w + t =~= t);
    } else {
        let w2 = w.drop_first();
        assert forall|i: int| 0 <= i < w2.len() implies is_white(#[trigger] w2[i]) by {
            assert(w2[i] == w[i + 1]);
        }
        lemma_trim_white_start_drops(w2, t);
        assert((w + t).drop_first() =~= w2 + t);
        assert((w + t)[0] == w[0]);
    }
}

proof fn lemma_trim_white_end_drops(t: Seq<char>, w: Seq<char>)
    requires
        t.len() > 0,
        !is_white(t.last()),
        forall|i: int| 0 <= i < w.len() ==> is_white(#[trigger] w[i]),
    ensures
        trim_white_end(t + w) == t,
    decreases w.len(),
{
    if w.len() == 0 {
        assert(t + w =~= t);
    } else {
        let w2 = w.drop_last();
        assert forall|i: int| 0 <= i < w2.len() implies is_white(#[trigger] w2[i]) by {
            assert(w2[i] == w[i]);
        }
        lemma_trim_white_end_drops(t, w2);
        assert((t + w).drop_last() =~= t + w2);
        assert((t + w).last() == w[w.len() - 1]);
    }
}


/// A text with no separator is one piece.
pub proof fn lemma_split_by_plain(s: Seq<char>, sep: Separator)
    requires
        forall|i: int| 0 <= i < s.len() ==> !sep.separates(#[trigger] s[i]),
    ensures
        split_by(s, sep) == seq![s],
    decreases s.len(),
{
    if s.len() > 0 {
        let t = s.drop_last();
        assert forall|i: int| 0 <= i < t.len() implies !sep.separates(#[trigger] t[i]) by {
            assert(t[i] == s[i]);
        }
        lemma_split_by_plain(t, sep);
        assert(s.last() == s[s.len() - 1]);
        assert(t.push(s.last()) =~= s);
        assert(!sep.separates(s.last()));
        let rest = split_by(t, sep);
        assert(rest.last() == t);
        assert(rest.update(rest.len() - 1, rest.last().push(s.last())) =~= seq![s]);
    } else {
        assert(s =~= Seq::<char>::empty());
    }
}

/// Text added at the end of `x` leaves every piece of `x` but its last as
/// it was.
pub proof fn lemma_split_by_prefix(x: Seq<char>, y: Seq<char>, sep: Separator)
    ensures
        split_by(x + y, sep).len() >= split_by(x, sep).len(),
        forall|i: int|
            0 <= i < split_by(x, sep).len() - 1 ==> #[trigger] split_by(x + y, sep)[i] == split_by(
                x,
                sep,
            )[i],
    decreases y.len(),
{
    if y.len() == 0 {
        assert(x + y =~= x);
    } else {
        lemma_split_by_prefix(x, y.drop_last(), sep);
        assert((x + y).drop_last() =~= x + y.drop_last());
        lemma_split_by_nonempty(x + y.drop_last(), sep);
    }
}

} // verus!
