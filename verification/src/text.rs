//! Character-level text utilities: whitespace, trimming, splitting and searching.

use vstd::prelude::*;

verus! {

broadcast use vstd::string::group_string_axioms;

/// `String::push`: the string afterwards is the old one with `c` added at its end.
#[verifier::external_body]
pub(crate) fn push_char(s: &mut String, c: char)
    ensures
        final(s)@ == old(s)@.push(c),
{
    s.push(c);
}

/// The characters of a string slice, in order.
pub fn chars_of(s: &str) -> (r: Vec<char>)
    ensures
        r@ == s@,
{
    let mut r: Vec<char> = Vec::new();
    for c in it: s.chars()
        invariant
            r@ == it.seq().take(it.index()),
            it.seq() == s@,
    {
        r.push(c);
    }
    r
}

/// A string holding the given characters.
pub fn string_of(cs: &Vec<char>) -> (r: String)
    ensures
        r@ == cs@,
{
    let mut r = String::new();
    for i in 0..cs.len()
        invariant
            r@ == cs@.take(i as int),
    {
        push_char(&mut r, cs[i]);
        assert(cs@.take(i + 1) == cs@.take(i as int).push(cs@[i as int]));
    }
    assert(cs@.take(cs.len() as int) == cs@);
    r
}


/// The views of a sequence of character vectors.
pub open spec fn views(v: Seq<Vec<char>>) -> Seq<Seq<char>> {
    v.map_values(|x: Vec<char>| x@)
}

/// The views of a sequence of strings.
pub open spec fn string_views(v: Seq<String>) -> Seq<Seq<char>> {
    v.map_values(|s: String| s@)
}

/// Pushing onto a sequence of vectors pushes the view.
pub proof fn lemma_views_push(v: Seq<Vec<char>>, x: Vec<char>)
    ensures
        views(v.push(x)) == views(v).push(x@),
{
    assert(views(v.push(x)) =~= views(v).push(x@));
}

/// Unicode `White_Space`: the characters that `str::trim` removes.
pub open spec fn is_ws(c: char) -> bool {
    let u = c as u32;
    ||| 0x09 <= u <= 0x0D
    ||| u == 0x20
    ||| u == 0x85
    ||| u == 0xA0
    ||| u == 0x1680
    ||| 0x2000 <= u <= 0x200A
    ||| u == 0x2028
    ||| u == 0x2029
    ||| u == 0x202F
    ||| u == 0x205F
    ||| u == 0x3000
}

/// Whether `c` is a Unicode white-space character.
pub fn is_whitespace_char(c: char) -> (r: bool)
    ensures
        r == is_ws(c),
{
    let u = c as u32;
    (0x09 <= u && u <= 0x0D) || u == 0x20 || u == 0x85 || u == 0xA0 || u == 0x1680 || (0x2000
        <= u && u <= 0x200A) || u == 0x2028 || u == 0x2029 || u == 0x202F || u == 0x205F || u
        == 0x3000
}

/// `s` without its leading white space.
pub open spec fn trim_start(s: Seq<char>) -> Seq<char>
    decreases s.len(),
{
    if s.len() > 0 && is_ws(s[0]) {
        trim_start(s.drop_first())
    } else {
        s
    }
}

/// `s` without its trailing white space.
pub open spec fn trim_end(s: Seq<char>) -> Seq<char>
    decreases s.len(),
{
    if s.len() > 0 && is_ws(s.last()) {
        trim_end(s.drop_last())
    } else {
        s
    }
}

/// `s` without leading and trailing white space, as `str::trim` gives it.
pub open spec fn trim(s: Seq<char>) -> Seq<char> {
    trim_end(trim_start(s))
}

/// The characters of `s` from `a` up to `b`.
pub fn sub_chars(s: &Vec<char>, a: usize, b: usize) -> (r: Vec<char>)
    requires
        a <= b <= s.len(),
    ensures
        r@ == s@.subrange(a as int, b as int),
{
    let mut r: Vec<char> = Vec::new();
    let mut i = a;
    while i < b
        invariant
            a <= i <= b <= s.len(),
            r@ == s@.subrange(a as int, i as int),
        decreases b - i,
    {
        r.push(s[i]);
        i += 1;
        assert(r@ =~= s@.subrange(a as int, i as int));
    }
    r
}

/// Appends the characters of `src` to `dst`.
pub fn append_chars(dst: &mut Vec<char>, src: &Vec<char>)
    ensures
        final(dst)@ == old(dst)@ + src@,
{
    let ghost base = dst@;
    let m = src.len();
    for k in 0..m
        invariant
            m == src.len(),
            dst@ == base + src@.take(k as int),
    {
        dst.push(src[k]);
        assert(base + src@.take(k + 1) =~= (base + src@.take(k as int)).push(src@[k as int]));
    }
    assert(src@.take(m as int) =~= src@);
}

/// A copy of `s`.
pub fn copy_chars(s: &Vec<char>) -> (r: Vec<char>)
    ensures
        r@ == s@,
{
    let r = sub_chars(s, 0, s.len());
    assert(s@.subrange(0, s@.len() as int) =~= s@);
    r
}

/// `s` trimmed of white space at both ends.
pub fn trimmed(s: &Vec<char>) -> (r: Vec<char>)
    ensures
        r@ == trim(s@),
{
    let n = s.len();
    let mut a: usize = 0;
    assert(s@.subrange(0, n as int) =~= s@);
    while a < n && is_whitespace_char(s[a])
        invariant
            a <= n == s.len(),
            trim_start(s@) == trim_start(s@.subrange(a as int, n as int)),
        decreases n - a,
    {
        assert(s@.subrange(a as int, n as int).drop_first() =~= s@.subrange(a + 1, n as int));
        a += 1;
    }
    assert(trim_start(s@) == s@.subrange(a as int, n as int));
    let mut b: usize = n;
    while b > a && is_whitespace_char(s[b - 1])
        invariant
            a <= b <= n == s.len(),
            trim(s@) == trim_end(s@.subrange(a as int, b as int)),
        decreases b,
    {
        assert(s@.subrange(a as int, b as int).drop_last() =~= s@.subrange(a as int, b - 1));
        b -= 1;
    }
    sub_chars(s, a, b)
}

/// The pieces of `s` between occurrences of `sep`, as `str::split` with a `char` gives them.
pub open spec fn split(s: Seq<char>, sep: char) -> Seq<Seq<char>>
    decreases s.len(),
{
    if s.len() == 0 {
        seq![Seq::<char>::empty()]
    } else {
        let prev = split(s.drop_last(), sep);
        if s.last() == sep {
            prev.push(Seq::<char>::empty())
        } else {
            prev.update(prev.len() - 1, prev.last().push(s.last()))
        }
    }
}

/// Each piece of a split occurs in the text, and the last piece ends it.
pub proof fn lemma_split_pieces(s: Seq<char>, sep: char)
    ensures
        split(s, sep).len() >= 1,
        forall|i: int| 0 <= i < split(s, sep).len() ==> contains_seq(s, #[trigger] split(s, sep)[i]),
        split(s, sep).last().len() <= s.len(),
        s.skip(s.len() - split(s, sep).last().len()) == split(s, sep).last(),
    decreases s.len(),
{
    let ps = split(s, sep);
    if s.len() == 0 {
        assert(ps[0] =~= Seq::<char>::empty());
        assert(s.subrange(0, 0) =~= ps[0]);
        assert(occurs_at(s, ps[0], 0));
        assert(s.skip(0) =~= ps.last());
    } else {
        let dl = s.drop_last();
        let prev = split(dl, sep);
        lemma_split_pieces(dl, sep);
        assert forall|i: int| 0 <= i < prev.len() implies contains_seq(s, #[trigger] prev[i]) by {
            let a = choose|a: int| occurs_at(dl, prev[i], a);
            assert(s.subrange(a, a + prev[i].len()) =~= dl.subrange(a, a + prev[i].len()));
            assert(occurs_at(s, prev[i], a));
        }
        if s.last() == sep {
            assert(s.skip(s.len() as int) =~= ps.last());
            assert(occurs_at(s, ps.last(), s.len() as int));
            assert forall|i: int| 0 <= i < ps.len() implies contains_seq(s, #[trigger] ps[i]) by {
                if i < prev.len() {
                    assert(ps[i] == prev[i]);
                }
            }
        } else {
            let l = prev.last();
            let a = dl.len() - l.len();
            assert(s.skip(a) =~= l.push(s.last()));
            assert(s.subrange(a, a + l.len() + 1) =~= l.push(s.last()));
            assert(occurs_at(s, ps.last(), a));
            assert forall|i: int| 0 <= i < ps.len() implies contains_seq(s, #[trigger] ps[i]) by {
                if i < prev.len() - 1 {
                    assert(ps[i] == prev[i]);
                }
            }
        }
    }
}

/// Splitting text that ends in a stretch without the separator: the stretch joins the last
/// piece.
pub proof fn lemma_split_append_plain(x: Seq<char>, y: Seq<char>, sep: char)
    requires
        forall|i: int| 0 <= i < y.len() ==> y[i] != sep,
    ensures
        split(x + y, sep) == split(x, sep).update(
            split(x, sep).len() - 1,
            split(x, sep).last() + y,
        ),
    decreases y.len(),
{
    lemma_split_pieces(x, sep);
    if y.len() == 0 {
        assert(x + y =~= x);
        assert(split(x, sep).last() + y =~= split(x, sep).last());
        assert(split(x, sep).update(split(x, sep).len() - 1, split(x, sep).last()) =~= split(x, sep));
    } else {
        let y1 = y.drop_last();
        assert forall|i: int| 0 <= i < y1.len() implies y1[i] != sep by {
            assert(y1[i] == y[i]);
        }
        lemma_split_append_plain(x, y1, sep);
        assert((x + y).drop_last() =~= x + y1);
        assert((x + y).last() == y.last());
        assert(y[y.len() - 1] != sep);
        let ps = split(x, sep);
        let prev = split(x + y1, sep);
        assert(prev.last() == ps.last() + y1);
        assert((ps.last() + y1).push(y.last()) =~= ps.last() + y);
        assert(prev.update(prev.len() - 1, prev.last().push(y.last())) =~= ps.update(
            ps.len() - 1,
            ps.last() + y,
        ));
    }
}

/// Splitting text, a separator and a stretch without it: the stretch is a new last piece.
pub proof fn lemma_split_append_piece(x: Seq<char>, y: Seq<char>, sep: char)
    requires
        forall|i: int| 0 <= i < y.len() ==> y[i] != sep,
    ensures
        split(x + seq![sep] + y, sep) == split(x, sep).push(y),
{
    let xs = x + seq![sep];
    assert(xs.drop_last() =~= x);
    assert(xs.last() == sep);
    assert(split(xs, sep) == split(x, sep).push(Seq::<char>::empty()));
    lemma_split_append_plain(xs, y, sep);
    assert(Seq::<char>::empty() + y =~= y);
    assert(split(x, sep).push(Seq::<char>::empty()).update(split(x, sep).len() as int, y) =~= split(
        x,
        sep,
    ).push(y));
}

/// Text without the separator is one piece.
pub proof fn lemma_split_plain(y: Seq<char>, sep: char)
    requires
        forall|i: int| 0 <= i < y.len() ==> y[i] != sep,
    ensures
        split(y, sep) == seq![y],
{
    lemma_split_append_plain(Seq::<char>::empty(), y, sep);
    assert(Seq::<char>::empty() + y =~= y);
    assert(split(Seq::<char>::empty(), sep) == seq![Seq::<char>::empty()]);
    assert(seq![Seq::<char>::empty()].update(0, Seq::<char>::empty() + y) =~= seq![y]);
}

/// No piece of a split holds the separator.
pub proof fn lemma_split_no_sep(s: Seq<char>, sep: char)
    ensures
        forall|i: int, j: int| 0 <= i < split(s, sep).len() && 0 <= j < split(s, sep)[i].len()
            ==> #[trigger] split(s, sep)[i][j] != sep,
    decreases s.len(),
{
    if s.len() > 0 {
        let dl = s.drop_last();
        lemma_split_no_sep(dl, sep);
        lemma_split_pieces(dl, sep);
        let prev = split(dl, sep);
        let ps = split(s, sep);
        assert forall|i: int, j: int| 0 <= i < ps.len() && 0 <= j < ps[i].len() implies #[trigger] ps[i][j]
            != sep by {
            if s.last() == sep {
                if i < prev.len() {
                    assert(ps[i] == prev[i]);
                }
            } else {
                if i < prev.len() - 1 {
                    assert(ps[i] == prev[i]);
                } else if j < prev.last().len() {
                    assert(ps[i][j] == prev[i][j]);
                }
            }
        }
    }
}

/// What occurs in a piece of a text occurs in the text.
pub proof fn lemma_contains_trans(s: Seq<char>, q: Seq<char>, p: Seq<char>)
    requires
        contains_seq(s, q),
        contains_seq(q, p),
    ensures
        contains_seq(s, p),
{
    let a = choose|a: int| occurs_at(s, q, a);
    let j = choose|j: int| occurs_at(q, p, j);
    assert(s.subrange(a + j, a + j + p.len()) =~= q.subrange(j, j + p.len()));
    assert(occurs_at(s, p, a + j));
}

/// The pieces of `s` between occurrences of `sep`.
pub fn split_chars(s: &Vec<char>, sep: char) -> (r: Vec<Vec<char>>)
    ensures
        views(r@) == split(s@, sep),
{
    let mut pieces: Vec<Vec<char>> = Vec::new();
    let mut cur: Vec<char> = Vec::new();
    let n = s.len();
    assert(s@.take(0) =~= Seq::<char>::empty());
    assert(views(pieces@).push(cur@) =~= split(s@.take(0), sep));
    for i in 0..n
        invariant
            n == s.len(),
            views(pieces@).push(cur@) == split(s@.take(i as int), sep),
    {
        let c = s[i];
        let ghost t = s@.take(i + 1);
        assert(t.drop_last() =~= s@.take(i as int));
        assert(t.last() == c);
        if c == sep {
            pieces.push(cur);
            cur = Vec::new();
            assert(views(pieces@).push(cur@) =~= split(t, sep));
        } else {
            let ghost old_pieces = pieces@;
            let ghost old_cur = cur@;
            cur.push(c);
            assert(views(pieces@).push(cur@) =~= split(t, sep));
        }
    }
    assert(s@.take(n as int) =~= s@);
    pieces.push(cur);
    pieces
}

/// The pieces of `ps`, each trimmed, with the empty ones left out.
pub open spec fn clean_pieces(ps: Seq<Seq<char>>) -> Seq<Seq<char>>
    decreases ps.len(),
{
    if ps.len() == 0 {
        Seq::empty()
    } else {
        let rest = clean_pieces(ps.drop_last());
        let t = trim(ps.last());
        if t.len() > 0 {
            rest.push(t)
        } else {
            rest
        }
    }
}

/// Each piece trimmed, the empty ones left out.
pub fn clean(ps: &Vec<Vec<char>>) -> (r: Vec<Vec<char>>)
    ensures
        views(r@) == clean_pieces(views(ps@)),
{
    let mut r: Vec<Vec<char>> = Vec::new();
    let n = ps.len();
    assert(views(ps@).take(0) =~= Seq::<Seq<char>>::empty());
    for i in 0..n
        invariant
            n == ps.len(),
            views(r@) == clean_pieces(views(ps@).take(i as int)),
    {
        let t = trimmed(&ps[i]);
        assert(views(ps@).take(i + 1).drop_last() =~= views(ps@).take(i as int));
        if t.len() > 0 {
            r.push(t);
        }
        assert(views(r@) =~= clean_pieces(views(ps@).take(i + 1)));
    }
    assert(views(ps@).take(n as int) =~= views(ps@));
    r
}

/// `p` occurs in `s` starting at index `i`.
pub open spec fn occurs_at(s: Seq<char>, p: Seq<char>, i: int) -> bool {
    0 <= i && i + p.len() <= s.len() && s.subrange(i, i + p.len()) == p
}

/// `p` occurs somewhere in `s`, as `str::contains` with a pattern string.
pub open spec fn contains_seq(s: Seq<char>, p: Seq<char>) -> bool {
    exists|i: int| occurs_at(s, p, i)
}

/// Whether `p` occurs at index `i` of `s`.
fn matches_at(s: &Vec<char>, p: &Vec<char>, i: usize) -> (r: bool)
    requires
        i + p.len() <= s.len(),
    ensures
        r == occurs_at(s@, p@, i as int),
{
    let m = p.len();
    for k in 0..m
        invariant
            m == p.len(),
            i + m <= s.len(),
            forall|j: int| 0 <= j < k ==> s@[i + j] == p@[j],
    {
        if s[i + k] != p[k] {
            assert(s@.subrange(i as int, i + m)[k as int] != p@[k as int]);
            return false;
        }
    }
    assert(s@.subrange(i as int, i + m) =~= p@);
    true
}

/// Whether `p` occurs in `s`.
pub fn contains_chars(s: &Vec<char>, p: &Vec<char>) -> (r: bool)
    ensures
        r == contains_seq(s@, p@),
{
    let n = s.len();
    let m = p.len();
    if m > n {
        return false;
    }
    if m == 0 {
        assert(s@.subrange(0, 0) =~= p@);
        assert(occurs_at(s@, p@, 0));
        return true;
    }
    let mut i: usize = 0;
    while i <= n - m
        invariant
            n == s.len(),
            m == p.len(),
            1 <= m <= n,
            i <= n - m + 1,
            forall|j: int| 0 <= j < i ==> !occurs_at(s@, p@, j),
        decreases n - m + 1 - i,
    {
        if matches_at(s, p, i) {
            return true;
        }
        i += 1;
    }
    false
}

/// `s` with every `c` removed, as `str::replace(c, "")` gives it.
pub open spec fn remove_all(s: Seq<char>, c: char) -> Seq<char>
    decreases s.len(),
{
    if s.len() == 0 {
        s
    } else if s.last() == c {
        remove_all(s.drop_last(), c)
    } else {
        remove_all(s.drop_last(), c).push(s.last())
    }
}

/// `s` with every `c` removed.
pub fn remove_char(s: &Vec<char>, c: char) -> (r: Vec<char>)
    ensures
        r@ == remove_all(s@, c),
{
    let mut r: Vec<char> = Vec::new();
    let n = s.len();
    assert(s@.take(0) =~= Seq::<char>::empty());
    for i in 0..n
        invariant
            n == s.len(),
            r@ == remove_all(s@.take(i as int), c),
    {
        assert(s@.take(i + 1).drop_last() =~= s@.take(i as int));
        if s[i] != c {
            r.push(s[i]);
        }
    }
    assert(s@.take(n as int) =~= s@);
    r
}

/// `c` occurs in `s`.
pub open spec fn has_char(s: Seq<char>, c: char) -> bool {
    exists|i: int| 0 <= i < s.len() && s[i] == c
}

/// `i` is the first index of `c` in `s`.
pub open spec fn is_first_index(s: Seq<char>, c: char, i: int) -> bool {
    0 <= i < s.len() && s[i] == c && forall|j: int| 0 <= j < i ==> s[j] != c
}

/// `i` is the last index of `c` in `s`.
pub open spec fn is_last_index(s: Seq<char>, c: char, i: int) -> bool {
    0 <= i < s.len() && s[i] == c && forall|j: int| i < j < s.len() ==> s[j] != c
}

/// The first index of `c` in `s`, as `str::find` counts it in characters.
pub open spec fn first_index(s: Seq<char>, c: char) -> int {
    choose|i: int| is_first_index(s, c, i)
}

/// The last index of `c` in `s`, as `str::rfind` counts it in characters.
pub open spec fn last_index(s: Seq<char>, c: char) -> int {
    choose|i: int| is_last_index(s, c, i)
}

/// The first index of `c` in `s`, if any.
pub fn find_first(s: &Vec<char>, c: char) -> (r: Option<usize>)
    ensures
        r is None <==> !has_char(s@, c),
        r matches Some(i) ==> i == first_index(s@, c) && is_first_index(s@, c, i as int),
{
    let n = s.len();
    for i in 0..n
        invariant
            n == s.len(),
            forall|j: int| 0 <= j < i ==> s@[j] != c,
    {
        if s[i] == c {
            assert(is_first_index(s@, c, i as int));
            let ghost k = first_index(s@, c);
            assert(k == i);
            return Some(i);
        }
    }
    None
}

/// The last index of `c` in `s`, if any.
pub fn find_last(s: &Vec<char>, c: char) -> (r: Option<usize>)
    ensures
        r is None <==> !has_char(s@, c),
        r matches Some(i) ==> i == last_index(s@, c) && is_last_index(s@, c, i as int),
{
    let n = s.len();
    let mut i = n;
    while i > 0
        invariant
            i <= n == s.len(),
            forall|j: int| i <= j < n ==> s@[j] != c,
        decreases i,
    {
        if s[i - 1] == c {
            assert(is_last_index(s@, c, i - 1));
            let ghost k = last_index(s@, c);
            assert(k == i - 1);
            return Some(i - 1);
        }
        i -= 1;
    }
    None
}


/// Every character of `w` is white space.
pub open spec fn all_ws(w: Seq<char>) -> bool {
    forall|i: int| 0 <= i < w.len() ==> is_ws(#[trigger] w[i])
}

/// Trimming the front takes off a white-space prefix.
pub proof fn lemma_trim_start_skip(s: Seq<char>) -> (k: int)
    ensures
        0 <= k <= s.len(),
        trim_start(s) == s.skip(k),
        all_ws(s.take(k)),
        k < s.len() ==> !is_ws(s[k]),
    decreases s.len(),
{
    if s.len() > 0 && is_ws(s[0]) {
        let k1 = lemma_trim_start_skip(s.drop_first());
        assert(s.drop_first().skip(k1) =~= s.skip(k1 + 1));
        assert forall|i: int| 0 <= i < k1 + 1 implies is_ws(#[trigger] s.take(k1 + 1)[i]) by {
            if i > 0 {
                assert(s.take(k1 + 1)[i] == s.drop_first().take(k1)[i - 1]);
            }
        }
        if k1 + 1 < s.len() {
            assert(s[k1 + 1] == s.drop_first()[k1]);
        }
        k1 + 1
    } else {
        assert(s.skip(0) =~= s);
        assert(s.take(0) =~= Seq::<char>::empty());
        0
    }
}

/// Trimming the back takes off a white-space suffix.
pub proof fn lemma_trim_end_take(s: Seq<char>) -> (k: int)
    ensures
        0 <= k <= s.len(),
        trim_end(s) == s.take(k),
        all_ws(s.skip(k)),
    decreases s.len(),
{
    if s.len() > 0 && is_ws(s.last()) {
        let k1 = lemma_trim_end_take(s.drop_last());
        assert(s.drop_last().take(k1) =~= s.take(k1));
        assert forall|i: int| 0 <= i < s.len() - k1 implies is_ws(#[trigger] s.skip(k1)[i]) by {
            if i < s.len() - 1 - k1 {
                assert(s.skip(k1)[i] == s.drop_last().skip(k1)[i]);
            }
        }
        k1
    } else {
        assert(s.take(s.len() as int) =~= s);
        assert(s.skip(s.len() as int) =~= Seq::<char>::empty());
        s.len() as int
    }
}

/// White space in front does not change what trimming the front gives.
proof fn lemma_trim_start_ws_prefix(w: Seq<char>, x: Seq<char>)
    requires
        all_ws(w),
    ensures
        trim_start(w + x) == trim_start(x),
    decreases w.len(),
{
    if w.len() > 0 {
        assert((w + x)[0] == w[0]);
        assert((w + x).drop_first() =~= w.drop_first() + x);
        assert forall|i: int| 0 <= i < w.drop_first().len() implies is_ws(#[trigger] w.drop_first()[i]) by {
            assert(w.drop_first()[i] == w[i + 1]);
        }
        lemma_trim_start_ws_prefix(w.drop_first(), x);
    } else {
        assert(w + x =~= x);
    }
}

/// White space behind does not change what trimming the back gives.
proof fn lemma_trim_end_ws_suffix(x: Seq<char>, w: Seq<char>)
    requires
        all_ws(w),
    ensures
        trim_end(x + w) == trim_end(x),
    decreases w.len(),
{
    if w.len() > 0 {
        assert((x + w).last() == w.last());
        assert(is_ws(w[w.len() - 1]));
        assert((x + w).drop_last() =~= x + w.drop_last());
        assert forall|i: int| 0 <= i < w.drop_last().len() implies is_ws(#[trigger] w.drop_last()[i]) by {
            assert(w.drop_last()[i] == w[i]);
        }
        lemma_trim_end_ws_suffix(x, w.drop_last());
    } else {
        assert(x + w =~= x);
    }
}

/// White space around a text does not change what trimming gives.
pub proof fn lemma_trim_ws_around(w1: Seq<char>, m: Seq<char>, w2: Seq<char>)
    requires
        all_ws(w1),
        all_ws(w2),
    ensures
        trim(w1 + m + w2) == trim(m),
{
    assert(w1 + m + w2 =~= w1 + (m + w2));
    lemma_trim_start_ws_prefix(w1, m + w2);
    let k = lemma_trim_start_skip(m);
    if k < m.len() {
        assert((m + w2).skip(k) =~= m.skip(k) + w2);
        assert((m + w2).take(k) =~= m.take(k));
        lemma_trim_start_ws_prefix(m.take(k), m.skip(k) + w2);
        assert(m.take(k) + (m.skip(k) + w2) =~= m + w2);
        assert((m.skip(k) + w2)[0] == m[k]);
        assert(trim_start(m.skip(k) + w2) == m.skip(k) + w2);
        lemma_trim_end_ws_suffix(m.skip(k), w2);
    } else {
        assert(m.take(k) =~= m);
        lemma_trim_start_ws_prefix(m, w2);
        lemma_trim_start_ws_prefix(w2, Seq::<char>::empty());
        assert(w2 + Seq::<char>::empty() =~= w2);
        assert(m.skip(k) =~= Seq::<char>::empty());
    }
}

/// Removing a character from two texts one after the other.
pub proof fn lemma_remove_all_concat(a: Seq<char>, b: Seq<char>, c: char)
    ensures
        remove_all(a + b, c) == remove_all(a, c) + remove_all(b, c),
    decreases b.len(),
{
    if b.len() == 0 {
        assert(a + b =~= a);
        assert(remove_all(a, c) + remove_all(b, c) =~= remove_all(a, c));
    } else {
        assert((a + b).drop_last() =~= a + b.drop_last());
        assert((a + b).last() == b.last());
        lemma_remove_all_concat(a, b.drop_last(), c);
        if b.last() != c {
            assert(remove_all(a, c) + remove_all(b.drop_last(), c).push(b.last()) =~= (remove_all(a, c)
                + remove_all(b.drop_last(), c)).push(b.last()));
        }
    }
}

/// Removing a character that is not there changes nothing.
pub proof fn lemma_remove_all_absent(s: Seq<char>, c: char)
    requires
        forall|i: int| 0 <= i < s.len() ==> s[i] != c,
    ensures
        remove_all(s, c) == s,
    decreases s.len(),
{
    if s.len() > 0 {
        assert(s[s.len() - 1] != c);
        lemma_remove_all_absent(s.drop_last(), c);
        assert(s.drop_last().push(s.last()) =~= s);
    }
}

/// Removing a character twice is removing it once.
pub proof fn lemma_remove_all_twice(s: Seq<char>, c: char)
    ensures
        remove_all(remove_all(s, c), c) == remove_all(s, c),
    decreases s.len(),
{
    if s.len() > 0 {
        lemma_remove_all_twice(s.drop_last(), c);
        let r = remove_all(s.drop_last(), c);
        if s.last() != c {
            assert(r.push(s.last()).drop_last() =~= r);
        }
    }
}

} // verus!
