//! Strings as sequences of characters: the vocabulary in which the rest of
//! the crate states its contracts, and the few operations it builds on.
use vstd::prelude::*;

verus! {

/// `String::push` appends one character.
pub assume_specification[ String::push ](s: &mut String, c: char)
    ensures
        final(s)@ == old(s)@.push(c),
;

/// The views of a sequence of values, in order.
pub open spec fn views<T: View>(s: Seq<T>) -> Seq<T::V> {
    s.map_values(|t: T| t@)
}

pub broadcast proof fn lemma_views_push<T: View>(s: Seq<T>, t: T)
    ensures
        #[trigger] views(s.push(t)) == views(s).push(t@),
{
    assert(views(s.push(t)) =~= views(s).push(t@));
}

// ---------- building and comparing ----------

/// The characters of `s`, in order.
pub fn to_chars(s: &str) -> (r: Vec<char>)
    ensures
        r@ == s@,
{
    let mut r: Vec<char> = Vec::new();
    for c in it: s.chars()
        invariant
            r@ == it.seq().take(it.index() as int),
    {
        r.push(c);
    }
    r
}

/// The string made of the characters `v[from..to]`.
pub fn from_range(v: &Vec<char>, from: usize, to: usize) -> (r: String)
    requires
        from <= to <= v.len(),
    ensures
        r@ == v@.subrange(from as int, to as int),
{
    let mut r: String = String::new();
    let mut i: usize = from;
    while i < to
        invariant
            from <= i <= to <= v.len(),
            r@ == v@.subrange(from as int, i as int),
        decreases to - i,
    {
        r.push(v[i]);
        i = i + 1;
        assert(v@.subrange(from as int, i as int) =~= v@.subrange(from as int, i - 1).push(v@[i - 1]));
    }
    r
}

/// Whether two strings hold the same characters.
pub fn same(a: &str, b: &str) -> (r: bool)
    ensures
        r == (a@ == b@),
{
    let x = to_chars(a);
    let y = to_chars(b);
    if x.len() != y.len() {
        return false;
    }
    let mut i: usize = 0;
    while i < x.len()
        invariant
            i <= x.len(),
            x.len() == y.len(),
            x@ == a@,
            y@ == b@,
            forall|j: int| 0 <= j < i ==> x@[j] == y@[j],
        decreases x.len() - i,
    {
        if x[i] != y[i] {
            return false;
        }
        i = i + 1;
    }
    assert(x@ =~= y@);
    true
}

/// A text that may be missing, by its view.
pub open spec fn opt_str(c: Option<&str>) -> Option<Seq<char>> {
    match c {
        None => None,
        Some(t) => Some(t@),
    }
}

/// A string that may be missing, by its view.
pub open spec fn opt_view(s: Option<String>) -> Option<Seq<char>> {
    match s {
        Some(t) => Some(t@),
        None => None,
    }
}

/// `a` followed by `b`.
pub fn concat(a: &str, b: &str) -> (r: String)
    ensures
        r@ == a@ + b@,
{
    let mut r: String = a.to_owned();
    r.append(b);
    r
}

/// `a`, `b` and `c` one after the other.
pub fn concat3(a: &str, b: &str, c: &str) -> (r: String)
    ensures
        r@ == a@ + b@ + c@,
{
    let mut r: String = a.to_owned();
    r.append(b);
    r.append(c);
    r
}

/// Four pieces one after the other.
pub fn concat4(a: &str, b: &str, c: &str, d: &str) -> (r: String)
    ensures
        r@ == a@ + b@ + c@ + d@,
{
    let mut r: String = concat3(a, b, c);
    r.append(d);
    r
}

/// Whether one of `list` is `s`.
pub fn list_has(list: &Vec<String>, s: &str) -> (r: bool)
    ensures
        r == views(list@).contains(s@),
{
    let mut i: usize = 0;
    while i < list.len()
        invariant
            i <= list.len(),
            forall|j: int| 0 <= j < i ==> views(list@)[j] != s@,
        decreases list.len() - i,
    {
        if same(list[i].as_str(), s) {
            assert(views(list@)[i as int] == s@);
            return true;
        }
        i = i + 1;
    }
    false
}

// ---------- order ----------

/// Strict lexicographic order of character sequences by code point. It is the
/// order of `str`, since UTF-8 keeps the order of code points.
pub open spec fn lex_lt(a: Seq<char>, b: Seq<char>) -> bool
    decreases a.len(),
{
    if b.len() == 0 {
        false
    } else if a.len() == 0 {
        true
    } else if a[0] != b[0] {
        a[0] < b[0]
    } else {
        lex_lt(a.drop_first(), b.drop_first())
    }
}

/// No sequence comes before itself.
pub proof fn lemma_lex_irreflexive(a: Seq<char>)
    ensures
        !lex_lt(a, a),
    decreases a.len(),
{
    if a.len() > 0 {
        lemma_lex_irreflexive(a.drop_first());
    }
}

/// The order is transitive.
pub proof fn lemma_lex_transitive(a: Seq<char>, b: Seq<char>, c: Seq<char>)
    requires
        lex_lt(a, b),
        lex_lt(b, c),
    ensures
        lex_lt(a, c),
    decreases a.len(),
{
    if a.len() > 0 && a[0] == b[0] && b[0] == c[0] {
        lemma_lex_transitive(a.drop_first(), b.drop_first(), c.drop_first());
    }
}

/// Of two different sequences one comes first.
pub proof fn lemma_lex_total(a: Seq<char>, b: Seq<char>)
    requires
        a != b,
    ensures
        lex_lt(a, b) || lex_lt(b, a),
        !(lex_lt(a, b) && lex_lt(b, a)),
    decreases a.len(),
{
    if a.len() > 0 && b.len() > 0 && a[0] == b[0] {
        if a.drop_first() == b.drop_first() {
            assert(a =~= seq![a[0]] + a.drop_first());
            assert(b =~= seq![b[0]] + b.drop_first());
        }
        lemma_lex_total(a.drop_first(), b.drop_first());
    } else if a.len() == 0 && b.len() == 0 {
        assert(a =~= b);
    }
}

/// Whether `a` comes strictly before `b`.
pub fn str_lt(a: &str, b: &str) -> (r: bool)
    ensures
        r == lex_lt(a@, b@),
{
    let x = to_chars(a);
    let y = to_chars(b);
    chars_lt(&x, &y)
}

/// Whether `x` comes strictly before `y`.
pub fn chars_lt(x: &Vec<char>, y: &Vec<char>) -> (r: bool)
    ensures
        r == lex_lt(x@, y@),
{
    let mut i: usize = 0;
    proof {
        assert(x@.skip(0) =~= x@);
        assert(y@.skip(0) =~= y@);
    }
    while i < x.len() && i < y.len()
        invariant
            i <= x.len(),
            i <= y.len(),
            lex_lt(x@, y@) == lex_lt(x@.skip(i as int), y@.skip(i as int)),
        decreases x.len() - i,
    {
        let ghost xs = x@.skip(i as int);
        let ghost ys = y@.skip(i as int);
        assert(xs[0] == x@[i as int] && ys[0] == y@[i as int]);
        if x[i] != y[i] {
            return x[i] < y[i];
        }
        i = i + 1;
        assert(xs.drop_first() =~= x@.skip(i as int));
        assert(ys.drop_first() =~= y@.skip(i as int));
    }
    i >= x.len() && i < y.len()
}

// ---------- white space ----------

/// The characters with the Unicode property `White_Space`.
pub open spec fn is_white(c: char) -> bool {
    ||| '\u{9}' <= c <= '\u{d}'
    ||| c == ' '
    ||| c == '\u{85}'
    ||| c == '\u{a0}'
    ||| c == '\u{1680}'
    ||| '\u{2000}' <= c <= '\u{200a}'
    ||| c == '\u{2028}'
    ||| c == '\u{2029}'
    ||| c == '\u{202f}'
    ||| c == '\u{205f}'
    ||| c == '\u{3000}'
}

/// Whether `c` is white space.
pub fn white(c: char) -> (r: bool)
    ensures
        r == is_white(c),
{
    ('\u{9}' <= c && c <= '\u{d}') || c == ' ' || c == '\u{85}' || c == '\u{a0}' || c == '\u{1680}' || (
    '\u{2000}' <= c && c <= '\u{200a}') || c == '\u{2028}' || c == '\u{2029}' || c == '\u{202f}' || c
        == '\u{205f}' || c == '\u{3000}'
}

/// `s` without the white space at its start.
pub open spec fn trim_start(s: Seq<char>) -> Seq<char>
    decreases s.len(),
{
    if s.len() > 0 && is_white(s[0]) {
        trim_start(s.drop_first())
    } else {
        s
    }
}

/// `s` without the white space at its end.
pub open spec fn trim_end(s: Seq<char>) -> Seq<char>
    decreases s.len(),
{
    if s.len() > 0 && is_white(s.last()) {
        trim_end(s.drop_last())
    } else {
        s
    }
}

/// `s` without the white space at both ends.
pub open spec fn trimmed(s: Seq<char>) -> Seq<char> {
    trim_end(trim_start(s))
}

/// `s` without the occurrences of `c` at its end.
pub open spec fn trim_end_char(s: Seq<char>, c: char) -> Seq<char>
    decreases s.len(),
{
    if s.len() > 0 && s.last() == c {
        trim_end_char(s.drop_last(), c)
    } else {
        s
    }
}

/// What is left has no white space at its ends.
pub proof fn lemma_trimmed_ends(s: Seq<char>)
    ensures
        trimmed(s).len() > 0 ==> !is_white(trimmed(s)[0]) && !is_white(trimmed(s).last()),
        trimmed(s).len() <= s.len(),
{
    lemma_trim_start(s);
    lemma_trim_end(trim_start(s));
}

proof fn lemma_trim_start(s: Seq<char>)
    ensures
        trim_start(s).len() <= s.len(),
        trim_start(s).len() > 0 ==> !is_white(trim_start(s)[0]),
        trim_start(s) == s.skip(s.len() - trim_start(s).len()),
    decreases s.len(),
{
    if s.len() > 0 && is_white(s[0]) {
        lemma_trim_start(s.drop_first());
        let n = s.len() - trim_start(s).len();
        assert(s.drop_first().skip(n - 1) =~= s.skip(n));
    } else {
        assert(s.skip(0) =~= s);
    }
}

proof fn lemma_trim_end(s: Seq<char>)
    ensures
        trim_end(s).len() <= s.len(),
        trim_end(s).len() > 0 ==> !is_white(trim_end(s).last()),
        trim_end(s) == s.take(trim_end(s).len() as int),
        trim_end(s).len() > 0 ==> trim_end(s)[0] == s[0],
    decreases s.len(),
{
    if s.len() > 0 && is_white(s.last()) {
        lemma_trim_end(s.drop_last());
        assert(s.drop_last().take(trim_end(s).len() as int) =~= s.take(trim_end(s).len() as int));
    } else {
        assert(s.take(s.len() as int) =~= s);
    }
}

/// Trimming twice is trimming once.
pub proof fn lemma_trimmed_idempotent(s: Seq<char>)
    ensures
        trimmed(trimmed(s)) == trimmed(s),
{
    lemma_trimmed_ends(s);
}

/// `s` without the white space at both ends.
pub fn trim(s: &str) -> (r: String)
    ensures
        r@ == trimmed(s@),
{
    let v = to_chars(s);
    let mut i: usize = 0;
    assert(v@.skip(0) =~= v@);
    while i < v.len() && white(v[i])
        invariant
            i <= v.len(),
            trim_start(v@) == trim_start(v@.skip(i as int)),
        decreases v.len() - i,
    {
        assert(v@.skip(i as int).drop_first() =~= v@.skip(i + 1));
        i = i + 1;
    }
    let mut j: usize = v.len();
    assert(v@.subrange(i as int, j as int) =~= v@.skip(i as int));
    while i < j && white(v[j - 1])
        invariant
            i <= j <= v.len(),
            trimmed(v@) == trim_end(v@.subrange(i as int, j as int)),
        decreases j - i,
    {
        assert(v@.subrange(i as int, j as int).drop_last() =~= v@.subrange(i as int, j - 1));
        j = j - 1;
    }
    from_range(&v, i, j)
}

/// `s` without the occurrences of `c` at its end.
pub fn strip_end_char(s: &str, c: char) -> (r: String)
    ensures
        r@ == trim_end_char(s@, c),
{
    let v = to_chars(s);
    let mut j: usize = v.len();
    assert(v@.subrange(0, j as int) =~= v@);
    while 0 < j && v[j - 1] == c
        invariant
            j <= v.len(),
            trim_end_char(v@, c) == trim_end_char(v@.subrange(0, j as int), c),
        decreases j,
    {
        assert(v@.subrange(0, j as int).drop_last() =~= v@.subrange(0, j - 1));
        j = j - 1;
    }
    from_range(&v, 0, j)
}

pub proof fn lemma_trim_end_char(s: Seq<char>, c: char)
    ensures
        trim_end_char(s, c).len() <= s.len(),
        trim_end_char(s, c).len() > 0 ==> trim_end_char(s, c).last() != c,
        trim_end_char(s, c) == s.take(trim_end_char(s, c).len() as int),
    decreases s.len(),
{
    if s.len() > 0 && s.last() == c {
        lemma_trim_end_char(s.drop_last(), c);
        let n = trim_end_char(s, c).len() as int;
        assert(s.drop_last().take(n) =~= s.take(n));
    } else {
        assert(s.take(s.len() as int) =~= s);
    }
}

// ---------- searching ----------

/// The position of the last `c` in `s`, or -1.
pub open spec fn last_index(s: Seq<char>, c: char) -> int
    decreases s.len(),
{
    if s.len() == 0 {
        -1
    } else if s.last() == c {
        s.len() - 1
    } else {
        last_index(s.drop_last(), c)
    }
}

/// The position of the first `c` in `s`, or the length of `s`.
pub open spec fn first_index(s: Seq<char>, c: char) -> int
    decreases s.len(),
{
    if s.len() == 0 || s[0] == c {
        0
    } else {
        1 + first_index(s.drop_first(), c)
    }
}

pub proof fn lemma_last_index(s: Seq<char>, c: char)
    ensures
        -1 <= last_index(s, c) < s.len(),
        last_index(s, c) >= 0 ==> s[last_index(s, c)] == c,
        forall|i: int| last_index(s, c) < i < s.len() ==> s[i] != c,
    decreases s.len(),
{
    if s.len() > 0 && s.last() != c {
        lemma_last_index(s.drop_last(), c);
        assert forall|i: int| last_index(s, c) < i < s.len() implies s[i] != c by {
            if i < s.len() - 1 {
                assert(s.drop_last()[i] == s[i]);
            }
        }
    }
}

pub proof fn lemma_first_index(s: Seq<char>, c: char)
    ensures
        0 <= first_index(s, c) <= s.len(),
        first_index(s, c) < s.len() ==> s[first_index(s, c)] == c,
        forall|i: int| 0 <= i < first_index(s, c) ==> s[i] != c,
    decreases s.len(),
{
    if s.len() > 0 && s[0] != c {
        lemma_first_index(s.drop_first(), c);
        assert forall|i: int| 0 <= i < first_index(s, c) implies s[i] != c by {
            if i > 0 {
                assert(s.drop_first()[i - 1] == s[i]);
            }
        }
    }
}

/// The position of the last `c`, if there is one.
pub fn rfind_char(v: &Vec<char>, c: char) -> (r: Option<usize>)
    ensures
        match r {
            Some(i) => i == last_index(v@, c) && i < v.len(),
            None => last_index(v@, c) == -1,
        },
{
    let mut j: usize = v.len();
    assert(v@.take(j as int) =~= v@);
    while 0 < j
        invariant
            j <= v.len(),
            last_index(v@, c) == last_index(v@.take(j as int), c),
        decreases j,
    {
        if v[j - 1] == c {
            return Some(j - 1);
        }
        assert(v@.take(j as int).drop_last() =~= v@.take(j - 1));
        j = j - 1;
    }
    None
}

/// The position of the first `c` at or after `from`, else the length.
pub fn find_char(v: &Vec<char>, from: usize, c: char) -> (r: usize)
    requires
        from <= v.len(),
    ensures
        from <= r <= v.len(),
        r == from + first_index(v@.skip(from as int), c),
{
    let mut i: usize = from;
    while i < v.len() && v[i] != c
        invariant
            from <= i <= v.len(),
            first_index(v@.skip(from as int), c) == i - from + first_index(v@.skip(i as int), c),
        decreases v.len() - i,
    {
        assert(v@.skip(i as int).drop_first() =~= v@.skip(i + 1));
        i = i + 1;
    }
    i
}

/// Whether `s` starts with `p`.
pub open spec fn starts_with(s: Seq<char>, p: Seq<char>) -> bool {
    p.len() <= s.len() && s.take(p.len() as int) == p
}

/// Whether `s` ends with `p`.
pub open spec fn ends_with(s: Seq<char>, p: Seq<char>) -> bool {
    p.len() <= s.len() && s.skip(s.len() - p.len()) == p
}

/// Whether `p` stands in `s` at position `i`.
pub open spec fn stands_at(s: Seq<char>, p: Seq<char>, i: int) -> bool {
    0 <= i && i + p.len() <= s.len() && s.subrange(i, i + p.len()) == p
}

/// Whether `p` stands somewhere in `s`.
pub open spec fn has_part(s: Seq<char>, p: Seq<char>) -> bool {
    exists|i: int| #[trigger] stands_at(s, p, i)
}

/// Whether `p` stands in `v` at position `i`.
pub fn part_at(v: &Vec<char>, p: &Vec<char>, i: usize) -> (r: bool)
    ensures
        r == stands_at(v@, p@, i as int),
{
    if i > v.len() || p.len() > v.len() - i {
        return false;
    }
    let mut j: usize = 0;
    while j < p.len()
        invariant
            i <= v.len(),
            p.len() <= v.len() - i,
            j <= p.len(),
            forall|k: int| 0 <= k < j ==> v@[i + k] == p@[k],
        decreases p.len() - j,
    {
        if v[i + j] != p[j] {
            assert(v@.subrange(i as int, i + p@.len())[j as int] != p@[j as int]);
            return false;
        }
        j = j + 1;
    }
    assert(v@.subrange(i as int, i + p@.len()) =~= p@);
    true
}

/// Whether `s` starts with `p`.
pub fn has_prefix(s: &str, p: &str) -> (r: bool)
    ensures
        r == starts_with(s@, p@),
{
    let v = to_chars(s);
    let w = to_chars(p);
    proof {
        if w@.len() <= v@.len() {
            assert(v@.subrange(0, w@.len() as int) =~= v@.take(w@.len() as int));
        }
    }
    part_at(&v, &w, 0)
}

/// Whether `s` ends with `p`.
pub fn has_suffix(s: &str, p: &str) -> (r: bool)
    ensures
        r == ends_with(s@, p@),
{
    let v = to_chars(s);
    let w = to_chars(p);
    if w.len() > v.len() {
        return false;
    }
    assert(v@.subrange(v@.len() - w@.len(), v@.len() as int) =~= v@.skip(v@.len() - w@.len()));
    part_at(&v, &w, v.len() - w.len())
}

/// Whether `p` stands somewhere in `s`.
pub fn contains_part(s: &str, p: &str) -> (r: bool)
    ensures
        r == has_part(s@, p@),
{
    let v = to_chars(s);
    let w = to_chars(p);
    let mut i: usize = 0;
    while i < v.len()
        invariant
            i <= v.len(),
            v@ == s@,
            w@ == p@,
            forall|k: int| 0 <= k < i ==> !stands_at(s@, p@, k),
        decreases v.len() - i,
    {
        if part_at(&v, &w, i) {
            return true;
        }
        i = i + 1;
    }
    part_at(&v, &w, i)
}

/// The part of `s` behind `p`, if `s` starts with `p`.
pub fn strip_prefix(s: &str, p: &str) -> (r: Option<String>)
    ensures
        r is Some == starts_with(s@, p@),
        r matches Some(t) ==> t@ == s@.skip(p@.len() as int),
{
    if !has_prefix(s, p) {
        return None;
    }
    let v = to_chars(s);
    let w = to_chars(p);
    assert(v@.subrange(w@.len() as int, v@.len() as int) =~= v@.skip(w@.len() as int));
    Some(from_range(&v, w.len(), v.len()))
}

// ---------- splitting ----------

/// The pieces of `s` between the occurrences of `c`: one more than there are
/// occurrences, empty pieces kept.
pub open spec fn split(s: Seq<char>, c: char) -> Seq<Seq<char>>
    decreases s.len(),
{
    let i = first_index(s, c);
    if 0 <= i < s.len() {
        seq![s.take(i)] + split(s.skip(i + 1), c)
    } else {
        seq![s]
    }
}

/// The pieces of `s` between the occurrences of `c`.
pub fn split_char(s: &str, c: char) -> (r: Vec<String>)
    ensures
        views(r@) == split(s@, c),
{
    let v = to_chars(s);
    let mut r: Vec<String> = Vec::new();
    let mut from: usize = 0;
    assert(v@.skip(0) =~= v@);
    assert(views(r@) + split(v@, c) =~= split(v@, c));
    loop
        invariant
            from <= v.len(),
            v@ == s@,
            views(r@) + split(v@.skip(from as int), c) == split(s@, c),
        decreases v.len() - from,
    {
        let to = find_char(&v, from, c);
        let piece = from_range(&v, from, to);
        let ghost rest = v@.skip(from as int);
        let ghost before = views(r@);
        r.push(piece);
        proof {
            lemma_views_push(r@.drop_last(), piece);
            assert(r@.drop_last().push(piece) =~= r@);
            assert(views(r@) =~= before.push(piece@));
            assert(piece@ =~= rest.take(to - from));
            if to < v@.len() {
                assert(rest.skip(to - from + 1) =~= v@.skip(to + 1));
                assert(before + split(rest, c) =~= views(r@) + split(v@.skip(to + 1), c));
            } else {
                assert(piece@ =~= rest);
                assert(before + split(rest, c) =~= views(r@));
            }
        }
        if to == v.len() {
            return r;
        }
        from = to + 1;
    }
}

/// The position of the first white space in `s`, or the length of `s`.
pub open spec fn white_index(s: Seq<char>) -> int
    decreases s.len(),
{
    if s.len() == 0 || is_white(s[0]) {
        0
    } else {
        1 + white_index(s.drop_first())
    }
}

pub proof fn lemma_white_index(s: Seq<char>)
    ensures
        0 <= white_index(s) <= s.len(),
        s.len() > 0 && !is_white(s[0]) ==> white_index(s) > 0,
    decreases s.len(),
{
    if s.len() > 0 && !is_white(s[0]) {
        lemma_white_index(s.drop_first());
    }
}

/// The pieces of `s` between runs of white space; none is empty.
pub open spec fn words(s: Seq<char>) -> Seq<Seq<char>>
    decreases s.len(),
{
    let t = trim_start(s);
    let e = white_index(t);
    if t.len() == 0 || t.len() > s.len() || !(0 < e <= t.len()) {
        Seq::empty()
    } else {
        seq![t.take(e)] + words(t.skip(e))
    }
}

/// The pieces of `s` between runs of white space.
pub fn split_words(s: &str) -> (r: Vec<String>)
    ensures
        views(r@) == words(s@),
{
    let v = to_chars(s);
    let mut r: Vec<String> = Vec::new();
    let mut from: usize = 0;
    assert(v@.skip(0) =~= v@);
    assert(views(r@) + words(v@) =~= words(v@));
    loop
        invariant
            from <= v.len(),
            v@ == s@,
            views(r@) + words(v@.skip(from as int)) == words(s@),
        decreases v.len() - from,
    {
        let ghost rest = v@.skip(from as int);
        let mut i: usize = from;
        while i < v.len() && white(v[i])
            invariant
                from <= i <= v.len(),
                trim_start(rest) == trim_start(v@.skip(i as int)),
            decreases v.len() - i,
        {
            assert(v@.skip(i as int).drop_first() =~= v@.skip(i + 1));
            i = i + 1;
        }
        let ghost t = v@.skip(i as int);
        assert(trim_start(rest) == t);
        if i == v.len() {
            assert(views(r@) + words(rest) =~= views(r@));
            return r;
        }
        let mut j: usize = i;
        while j < v.len() && !white(v[j])
            invariant
                i <= j <= v.len(),
                t == v@.skip(i as int),
                white_index(t) == j - i + white_index(v@.skip(j as int)),
            decreases v.len() - j,
        {
            assert(v@.skip(j as int).drop_first() =~= v@.skip(j + 1));
            j = j + 1;
        }
        let piece = from_range(&v, i, j);
        let ghost before = views(r@);
        r.push(piece);
        proof {
            lemma_white_index(t);
            lemma_views_push(r@.drop_last(), piece);
            assert(r@.drop_last().push(piece) =~= r@);
            assert(piece@ =~= t.take(j - i));
            assert(t.skip(j - i) =~= v@.skip(j as int));
            assert(before + words(rest) =~= views(r@) + words(v@.skip(j as int)));
        }
        from = j;
    }
}

// ---------- numbers ----------

/// One decimal digit.
pub open spec fn digit(d: int) -> char {
    if d == 0 {
        '0'
    } else if d == 1 {
        '1'
    } else if d == 2 {
        '2'
    } else if d == 3 {
        '3'
    } else if d == 4 {
        '4'
    } else if d == 5 {
        '5'
    } else if d == 6 {
        '6'
    } else if d == 7 {
        '7'
    } else if d == 8 {
        '8'
    } else if d == 9 {
        '9'
    } else if d == 10 {
        'a'
    } else if d == 11 {
        'b'
    } else if d == 12 {
        'c'
    } else if d == 13 {
        'd'
    } else if d == 14 {
        'e'
    } else {
        'f'
    }
}

/// `n` written in decimal.
pub open spec fn decimal(n: nat) -> Seq<char>
    decreases n,
{
    if n < 10 {
        seq![digit(n as int)]
    } else {
        decimal(n / 10).push(digit((n % 10) as int))
    }
}

/// `n` written in decimal with at least two digits.
pub open spec fn decimal2(n: nat) -> Seq<char> {
    if n < 10 {
        seq!['0', digit(n as int)]
    } else {
        decimal(n)
    }
}

/// An integer written in decimal.
pub open spec fn decimal_int(n: int) -> Seq<char> {
    if n < 0 {
        seq!['-'] + decimal((-n) as nat)
    } else {
        decimal(n as nat)
    }
}

/// The digit of a value below sixteen.
pub fn digit_char(d: u8) -> (r: char)
    requires
        d < 16,
    ensures
        r == digit(d as int),
{
    if d < 10 {
        if d == 0 {
            '0'
        } else if d == 1 {
            '1'
        } else if d == 2 {
            '2'
        } else if d == 3 {
            '3'
        } else if d == 4 {
            '4'
        } else if d == 5 {
            '5'
        } else if d == 6 {
            '6'
        } else if d == 7 {
            '7'
        } else if d == 8 {
            '8'
        } else {
            '9'
        }
    } else if d == 10 {
        'a'
    } else if d == 11 {
        'b'
    } else if d == 12 {
        'c'
    } else if d == 13 {
        'd'
    } else if d == 14 {
        'e'
    } else {
        'f'
    }
}

/// `n` written in decimal.
pub fn decimal_u64(n: u64) -> (r: String)
    ensures
        r@ == decimal(n as nat),
    decreases n,
{
    if n < 10 {
        let mut r: String = String::new();
        r.push(digit_char(n as u8));
        assert(r@ =~= seq![digit(n as int)]);
        r
    } else {
        let mut r: String = decimal_u64(n / 10);
        r.push(digit_char((n % 10) as u8));
        r
    }
}

/// `n` written in decimal with at least two digits.
pub fn decimal2_u64(n: u64) -> (r: String)
    ensures
        r@ == decimal2(n as nat),
{
    if n < 10 {
        let mut r: String = String::new();
        r.push('0');
        r.push(digit_char(n as u8));
        assert(r@ =~= seq!['0', digit(n as int)]);
        r
    } else {
        decimal_u64(n)
    }
}

/// `n` written in decimal.
pub fn decimal_i64(n: i64) -> (r: String)
    ensures
        r@ == decimal_int(n as int),
{
    if n < 0 {
        let mut r: String = String::new();
        r.push('-');
        let m: u64 = (-(n as i128)) as u64;
        let d = decimal_u64(m);
        r.append(d.as_str());
        assert(r@ =~= seq!['-'] + decimal((-n) as nat));
        r
    } else {
        decimal_u64(n as u64)
    }
}

/// Whether `c` is one of `0` to `9`.
pub open spec fn is_digit(c: char) -> bool {
    '0' <= c <= '9'
}

/// The value of a decimal digit.
pub open spec fn digit_value(c: char) -> int {
    c as int - '0' as int
}

/// The number that a sequence of decimal digits writes.
pub open spec fn number(s: Seq<char>) -> int
    decreases s.len(),
{
    if s.len() == 0 {
        0
    } else {
        10 * number(s.drop_last()) + digit_value(s.last())
    }
}

/// Whether `s` is one decimal digit or more.
pub open spec fn is_number(s: Seq<char>) -> bool {
    s.len() > 0 && forall|i: int| 0 <= i < s.len() ==> is_digit(#[trigger] s[i])
}

/// A number is not negative, and no prefix of its digits writes a larger one.
pub proof fn lemma_number_prefix(s: Seq<char>, i: int)
    requires
        forall|j: int| 0 <= j < s.len() ==> is_digit(#[trigger] s[j]),
        0 <= i <= s.len(),
    ensures
        0 <= number(s.take(i)) <= number(s),
    decreases s.len(),
{
    if s.len() > 0 {
        if i < s.len() {
            lemma_number_prefix(s.drop_last(), i);
            assert(s.drop_last().take(i) =~= s.take(i));
            assert(is_digit(s[s.len() - 1]));
        } else {
            lemma_number_prefix(s.drop_last(), i - 1);
            assert(s.drop_last().take(i - 1) =~= s.drop_last());
            assert(s.take(i) =~= s);
            assert(is_digit(s[s.len() - 1]));
        }
    } else {
        assert(s.take(i) =~= s);
    }
}

/// What a number writes is read back from its digits.
pub proof fn lemma_number_of_decimal(n: nat)
    ensures
        is_number(decimal(n)),
        number(decimal(n)) == n,
    decreases n,
{
    reveal_with_fuel(number, 2);
    if n < 10 {
        assert(decimal(n).drop_last() =~= Seq::<char>::empty());
    } else {
        lemma_number_of_decimal(n / 10);
        assert(decimal(n).drop_last() =~= decimal(n / 10));
    }
}

/// The number that the digits `s` write, where it is at most `max`. An
/// optional plus sign comes first.
pub open spec fn unsigned(s: Seq<char>, max: int) -> Option<int> {
    let d = if s.len() > 0 && s[0] == '+' {
        s.drop_first()
    } else {
        s
    };
    if is_number(d) && number(d) <= max {
        Some(number(d))
    } else {
        None
    }
}

/// Reads an unsigned integer of at most `max`.
pub fn parse_unsigned(s: &str, max: u64) -> (r: Option<u64>)
    ensures
        match r {
            Some(n) => unsigned(s@, max as int) == Some(n as int),
            None => unsigned(s@, max as int) is None,
        },
{
    let v = to_chars(s);
    let start: usize = if v.len() > 0 && v[0] == '+' {
        1
    } else {
        0
    };
    let ghost d = v@.skip(start as int);
    proof {
        if start == 1 {
            assert(d =~= v@.drop_first());
        } else {
            assert(d =~= v@);
        }
    }
    if start == v.len() {
        return None;
    }
    let mut n: u64 = 0;
    let mut i: usize = start;
    while i < v.len()
        invariant
            start <= i <= v.len(),
            start < v.len(),
            d == v@.skip(start as int),
            forall|j: int| 0 <= j < i - start ==> is_digit(#[trigger] d[j]),
            n == number(d.take(i - start)),
            n <= max,
            unsigned(v@, max as int) == (if is_number(d) && number(d) <= max {
                Some(number(d))
            } else {
                None
            }),
            v@ == s@,
        decreases v.len() - i,
    {
        let c = v[i];
        assert(d[i - start] == c);
        if c < '0' || c > '9' {
            return None;
        }
        let x: u64 = (c as u32 - '0' as u32) as u64;
        let m: u128 = n as u128 * 10 + x as u128;
        proof {
            assert(d.take(i - start + 1).drop_last() =~= d.take(i - start));
            assert(number(d.take(i - start + 1)) == m);
            if is_number(d) {
                lemma_number_prefix(d, i - start + 1);
            }
        }
        if m > max as u128 {
            return None;
        }
        n = m as u64;
        i = i + 1;
    }
    assert(d.take(i - start) =~= d);
    Some(n)
}

/// `n` bytes written in hexadecimal, two digits each.
pub open spec fn hex(b: Seq<u8>) -> Seq<char>
    decreases b.len(),
{
    if b.len() == 0 {
        Seq::empty()
    } else {
        hex(b.drop_last()) + seq![digit(b.last() as int / 16), digit(b.last() as int % 16)]
    }
}

pub proof fn lemma_hex_len(b: Seq<u8>)
    ensures
        hex(b).len() == 2 * b.len(),
    decreases b.len(),
{
    if b.len() > 0 {
        lemma_hex_len(b.drop_last());
    }
}

/// Bytes written in lower-case hexadecimal.
pub fn to_hex(b: &[u8]) -> (r: String)
    ensures
        r@ == hex(b@),
{
    let mut r: String = String::new();
    let mut i: usize = 0;
    assert(b@.take(0) =~= Seq::<u8>::empty());
    while i < b.len()
        invariant
            i <= b.len(),
            r@ == hex(b@.take(i as int)),
        decreases b.len() - i,
    {
        let x: u8 = b[i];
        assert(b@.take(i + 1).drop_last() =~= b@.take(i as int));
        r.push(digit_char(x / 16));
        r.push(digit_char(x % 16));
        assert(r@ =~= hex(b@.take(i as int)) + seq![digit(x as int / 16), digit(x as int % 16)]);
        i = i + 1;
    }
    assert(b@.take(i as int) =~= b@);
    r
}


// ---------- replacing and trimming single characters ----------

/// `s` with every `from` replaced by `to`.
pub open spec fn replaced(s: Seq<char>, from: char, to: char) -> Seq<char> {
    s.map_values(
        |c: char|
            if c == from {
                to
            } else {
                c
            },
    )
}

/// `s` with every `from` replaced by `to`.
pub fn replace_char(s: &str, from: char, to: char) -> (r: String)
    ensures
        r@ == replaced(s@, from, to),
{
    let v = to_chars(s);
    let mut r: String = String::new();
    let mut i: usize = 0;
    assert(r@ =~= replaced(v@.take(0), from, to));
    while i < v.len()
        invariant
            i <= v.len(),
            r@ == replaced(v@.take(i as int), from, to),
        decreases v.len() - i,
    {
        let c: char = if v[i] == from {
            to
        } else {
            v[i]
        };
        r.push(c);
        i = i + 1;
        assert(replaced(v@.take(i as int), from, to) =~= replaced(v@.take(i - 1), from, to).push(c));
    }
    assert(v@.take(i as int) =~= v@);
    r
}

/// `s` without the occurrences of `c` at its start.
pub open spec fn trim_start_char(s: Seq<char>, c: char) -> Seq<char>
    decreases s.len(),
{
    if s.len() > 0 && s[0] == c {
        trim_start_char(s.drop_first(), c)
    } else {
        s
    }
}

/// `s` without the occurrences of `c` at its ends.
pub open spec fn trim_char(s: Seq<char>, c: char) -> Seq<char> {
    trim_end_char(trim_start_char(s, c), c)
}

/// `s` without the occurrences of `c` at its start.
pub fn strip_start_char(s: &str, c: char) -> (r: String)
    ensures
        r@ == trim_start_char(s@, c),
{
    let v = to_chars(s);
    let mut i: usize = 0;
    assert(v@.skip(0) =~= v@);
    while i < v.len() && v[i] == c
        invariant
            i <= v.len(),
            trim_start_char(v@, c) == trim_start_char(v@.skip(i as int), c),
        decreases v.len() - i,
    {
        assert(v@.skip(i as int).drop_first() =~= v@.skip(i + 1));
        i = i + 1;
    }
    assert(v@.skip(i as int) =~= v@.subrange(i as int, v@.len() as int));
    from_range(&v, i, v.len())
}

/// `s` without the occurrences of `c` at its ends.
pub fn strip_char(s: &str, c: char) -> (r: String)
    ensures
        r@ == trim_char(s@, c),
{
    let t = strip_start_char(s, c);
    strip_end_char(t.as_str(), c)
}

// ---------- ASCII case ----------

/// The lower-case form of an ASCII letter; any other character is kept.
pub open spec fn ascii_lower(c: char) -> char {
    if 'A' <= c <= 'Z' {
        (c as u8 + 32) as char
    } else {
        c
    }
}

/// The upper-case form of an ASCII letter; any other character is kept.
pub open spec fn ascii_upper(c: char) -> char {
    if 'a' <= c <= 'z' {
        (c as u8 - 32) as char
    } else {
        c
    }
}

/// `s` with its ASCII letters in lower case.
pub open spec fn ascii_lowered(s: Seq<char>) -> Seq<char> {
    s.map_values(|c: char| ascii_lower(c))
}

/// `s` with its ASCII letters in upper case.
pub open spec fn ascii_uppered(s: Seq<char>) -> Seq<char> {
    s.map_values(|c: char| ascii_upper(c))
}

/// `s` with its ASCII letters in lower case.
pub fn to_ascii_lower(s: &str) -> (r: String)
    ensures
        r@ == ascii_lowered(s@),
{
    let v = to_chars(s);
    let mut r: String = String::new();
    let mut i: usize = 0;
    assert(r@ =~= ascii_lowered(v@.take(0)));
    while i < v.len()
        invariant
            i <= v.len(),
            r@ == ascii_lowered(v@.take(i as int)),
        decreases v.len() - i,
    {
        let x = v[i];
        let c: char = if 'A' <= x && x <= 'Z' {
            (x as u8 + 32) as char
        } else {
            x
        };
        r.push(c);
        i = i + 1;
        assert(ascii_lowered(v@.take(i as int)) =~= ascii_lowered(v@.take(i - 1)).push(c));
    }
    assert(v@.take(i as int) =~= v@);
    r
}

/// `s` with its ASCII letters in upper case.
pub fn to_ascii_upper(s: &str) -> (r: String)
    ensures
        r@ == ascii_uppered(s@),
{
    let v = to_chars(s);
    let mut r: String = String::new();
    let mut i: usize = 0;
    assert(r@ =~= ascii_uppered(v@.take(0)));
    while i < v.len()
        invariant
            i <= v.len(),
            r@ == ascii_uppered(v@.take(i as int)),
        decreases v.len() - i,
    {
        let x = v[i];
        let c: char = if 'a' <= x && x <= 'z' {
            (x as u8 - 32) as char
        } else {
            x
        };
        r.push(c);
        i = i + 1;
        assert(ascii_uppered(v@.take(i as int)) =~= ascii_uppered(v@.take(i - 1)).push(c));
    }
    assert(v@.take(i as int) =~= v@);
    r
}

/// The lower-case form of a text by the rules of Unicode.
pub uninterp spec fn lowercase(s: Seq<char>) -> Seq<char>;

/// `str::to_lowercase`: the result depends on the text alone.
#[verifier::external_body]
pub(crate) fn to_lower(s: &str) -> (r: String)
    ensures
        r@ == lowercase(s@),
{
    s.to_lowercase()
}

/// The text of a string as `{:?}` prints it, quoted and escaped.
pub uninterp spec fn debug_text(s: Seq<char>) -> Seq<char>;

/// `str`'s `Debug`: the text depends on the string alone.
#[verifier::external_body]
pub(crate) fn debug_str(s: &str) -> (r: String)
    ensures
        r@ == debug_text(s@),
{
    format!("{s:?}")
}

/// The text that bytes stand for when what is no UTF-8 is replaced.
pub uninterp spec fn lossy_text(b: Seq<u8>) -> Seq<char>;

/// `String::from_utf8_lossy`: the text depends on the bytes alone, and valid
/// UTF-8 is read as it is.
#[verifier::external_body]
pub(crate) fn from_utf8_lossy(b: &[u8]) -> (r: String)
    ensures
        r@ == lossy_text(b@),
        vstd::utf8::valid_utf8(b@) ==> r@ == vstd::utf8::decode_utf8(b@),
{
    String::from_utf8_lossy(b).into_owned()
}

/// The text without `p` at its end, as often as it stands there.
pub open spec fn trim_end_part(s: Seq<char>, p: Seq<char>) -> Seq<char>
    decreases s.len(),
{
    if p.len() > 0 && ends_with(s, p) {
        trim_end_part(s.take(s.len() - p.len()), p)
    } else {
        s
    }
}

/// The text without `p` at its end, as often as it stands there.
pub fn strip_end_part(s: &str, p: &str) -> (r: String)
    ensures
        r@ == trim_end_part(s@, p@),
{
    let w = to_chars(p);
    let mut cur: String = s.to_owned();
    if w.len() == 0 {
        return cur;
    }
    while has_suffix(cur.as_str(), p)
        invariant
            w@ == p@,
            p@.len() > 0,
            trim_end_part(cur@, p@) == trim_end_part(s@, p@),
        decreases cur@.len(),
    {
        let v = to_chars(cur.as_str());
        let next = from_range(&v, 0, v.len() - w.len());
        assert(next@ =~= cur@.take(cur@.len() - p@.len()));
        cur = next;
    }
    cur
}

// ---------- paths ----------

/// The last named component of a path: empty components and `.` are passed
/// over, and a path that ends in `..` has none.
pub open spec fn file_name(path: Seq<char>) -> Option<Seq<char>> {
    last_component(split(path, '/'))
}

/// The last of `parts` that is neither empty nor `.`, unless it is `..`.
pub open spec fn last_component(parts: Seq<Seq<char>>) -> Option<Seq<char>>
    decreases parts.len(),
{
    if parts.len() == 0 {
        None
    } else if parts.last().len() == 0 || parts.last() == "."@ {
        last_component(parts.drop_last())
    } else if parts.last() == ".."@ {
        None
    } else {
        Some(parts.last())
    }
}

/// The last named component of a path.
pub fn path_file_name(path: &str) -> (r: Option<String>)
    ensures
        opt_view(r) == file_name(path@),
{
    let parts = split_char(path, '/');
    let mut n: usize = parts.len();
    assert(views(parts@).take(n as int) =~= views(parts@));
    while 0 < n
        invariant
            n <= parts.len(),
            file_name(path@) == last_component(views(parts@).take(n as int)),
        decreases n,
    {
        let p = &parts[n - 1];
        assert(views(parts@).take(n as int).last() == p@);
        assert(views(parts@).take(n as int).drop_last() =~= views(parts@).take(n - 1));
        if p.as_str().is_empty() || same(p.as_str(), ".") {
            n = n - 1;
        } else if same(p.as_str(), "..") {
            return None;
        } else {
            return Some(p.clone());
        }
    }
    None
}

/// Where the extension of a file name starts, dot included: at its last dot,
/// unless that is its first character; a name without extension has it at its
/// end.
pub open spec fn ext_start(name: Seq<char>) -> int {
    let i = last_index(name, '.');
    if i > 0 {
        i
    } else {
        name.len() as int
    }
}

/// Where the extension of a file name starts.
pub fn find_ext(v: &Vec<char>) -> (r: usize)
    ensures
        r == ext_start(v@),
        r <= v.len(),
{
    proof {
        lemma_last_index(v@, '.');
    }
    match rfind_char(v, '.') {
        Some(i) => if i > 0 {
            i
        } else {
            v.len()
        },
        None => v.len(),
    }
}

// ---------- what these operations give ----------

/// Of two texts the one comes first that has the smaller character where they
/// first differ, or that ends there.
pub proof fn law_order_is_by_the_first_difference(a: Seq<char>, b: Seq<char>)
    ensures
        lex_lt(a, b) <==> exists|k: int|
            #![trigger a.take(k)]
            {
                &&& 0 <= k < b.len()
                &&& k <= a.len()
                &&& a.take(k) == b.take(k)
                &&& (k == a.len() || a[k] < b[k])
            },
    decreases a.len(),
{
    if b.len() == 0 {
    } else if a.len() == 0 {
        assert(a.take(0) =~= b.take(0));
    } else if a[0] != b[0] {
        assert(a.take(0) =~= b.take(0));
        assert forall|k: int| #![trigger a.take(k)] 0 < k <= a.len() && k < b.len() implies a.take(k)
            != b.take(k) by {
            assert(a.take(k)[0] != b.take(k)[0]);
        }
    } else {
        let x = a.drop_first();
        let y = b.drop_first();
        law_order_is_by_the_first_difference(x, y);
        if lex_lt(x, y) {
            let k = choose|k: int|
                #![trigger x.take(k)]
                {
                    &&& 0 <= k < y.len()
                    &&& k <= x.len()
                    &&& x.take(k) == y.take(k)
                    &&& (k == x.len() || x[k] < y[k])
                };
            assert(a.take(k + 1) =~= seq![a[0]] + x.take(k));
            assert(b.take(k + 1) =~= seq![b[0]] + y.take(k));
        }
        assert forall|k: int|
            #![trigger a.take(k)]
            0 <= k < b.len() && k <= a.len() && a.take(k) == b.take(k) && (k == a.len() || a[k]
                < b[k]) implies lex_lt(x, y) by {
            assert(k > 0);
            assert(x.take(k - 1) =~= a.take(k).drop_first());
            assert(y.take(k - 1) =~= b.take(k).drop_first());
        }
    }
}

/// White space is what Unicode calls so: the 25 characters with that property.
pub proof fn law_white_space(c: char)
    ensures
        is_white(c) <==> seq![
            0x9u32,
            0xA,
            0xB,
            0xC,
            0xD,
            0x20,
            0x85,
            0xA0,
            0x1680,
            0x2000,
            0x2001,
            0x2002,
            0x2003,
            0x2004,
            0x2005,
            0x2006,
            0x2007,
            0x2008,
            0x2009,
            0x200A,
            0x2028,
            0x2029,
            0x202F,
            0x205F,
            0x3000,
        ].contains(c as u32),
{
    let all = seq![
        0x9u32,
        0xA,
        0xB,
        0xC,
        0xD,
        0x20,
        0x85,
        0xA0,
        0x1680,
        0x2000,
        0x2001,
        0x2002,
        0x2003,
        0x2004,
        0x2005,
        0x2006,
        0x2007,
        0x2008,
        0x2009,
        0x200A,
        0x2028,
        0x2029,
        0x202F,
        0x205F,
        0x3000,
    ];
    let n = c as u32;
    if is_white(c) {
        let i = if n <= 0xD {
            n - 0x9
        } else if n == 0x20 {
            5
        } else if n == 0x85 {
            6
        } else if n == 0xA0 {
            7
        } else if n == 0x1680 {
            8
        } else if n <= 0x200A {
            n - 0x2000 + 9
        } else if n == 0x2028 {
            20
        } else if n == 0x2029 {
            21
        } else if n == 0x202F {
            22
        } else if n == 0x205F {
            23
        } else {
            24
        };
        assert(all[i as int] == n);
    }
}

/// Trimming takes the white space from both ends and nothing else: what is left
/// is a part of the text, all around it is white, and its ends are not.
pub proof fn law_trimming_takes_only_the_ends(s: Seq<char>)
    ensures
        exists|i: int, j: int|
            {
                &&& 0 <= i <= j <= s.len()
                &&& trimmed(s) == #[trigger] s.subrange(i, j)
                &&& forall|k: int| 0 <= k < i || j <= k < s.len() ==> is_white(#[trigger] s[k])
                &&& i < j ==> !is_white(s[i]) && !is_white(s[j - 1])
            },
{
    let t = trim_start(s);
    lemma_trim_start(s);
    lemma_trim_end(t);
    lemma_trim_start_white(s);
    lemma_trim_end_white(t);
    let i = s.len() - t.len();
    let j = i + trim_end(t).len();
    assert(trim_end(t) =~= s.subrange(i, j));
    assert forall|k: int| 0 <= k < i || j <= k < s.len() implies is_white(#[trigger] s[k]) by {
        if k >= j {
            assert(t[k - i] == s[k]);
        }
    }
    assert(0 <= i <= j <= s.len() && trimmed(s) == s.subrange(i, j));
}

proof fn lemma_trim_start_white(s: Seq<char>)
    ensures
        forall|k: int| 0 <= k < s.len() - trim_start(s).len() ==> is_white(#[trigger] s[k]),
    decreases s.len(),
{
    if s.len() > 0 && is_white(s[0]) {
        lemma_trim_start_white(s.drop_first());
        assert forall|k: int| 0 <= k < s.len() - trim_start(s).len() implies is_white(#[trigger] s[k]) by {
            if k > 0 {
                assert(s.drop_first()[k - 1] == s[k]);
            }
        }
    }
}

proof fn lemma_trim_end_white(s: Seq<char>)
    ensures
        forall|k: int| trim_end(s).len() <= k < s.len() ==> is_white(#[trigger] s[k]),
    decreases s.len(),
{
    if s.len() > 0 && is_white(s.last()) {
        lemma_trim_end_white(s.drop_last());
        assert forall|k: int| trim_end(s).len() <= k < s.len() implies is_white(#[trigger] s[k]) by {
            if k < s.len() - 1 {
                assert(s.drop_last()[k] == s[k]);
            }
        }
    }
}

/// A text whose ends are not white is left alone by trimming.
pub proof fn law_trimming_keeps_what_has_no_white_ends(s: Seq<char>)
    requires
        s.len() > 0 ==> !is_white(s[0]) && !is_white(s.last()),
    ensures
        trimmed(s) == s,
{
}

/// Trimming a character takes its occurrences from both ends and nothing else.
pub proof fn law_trimming_a_character_takes_only_the_ends(s: Seq<char>, c: char)
    ensures
        exists|i: int, j: int|
            {
                &&& 0 <= i <= j <= s.len()
                &&& trim_char(s, c) == #[trigger] s.subrange(i, j)
                &&& forall|k: int| 0 <= k < i || j <= k < s.len() ==> #[trigger] s[k] == c
                &&& i < j ==> s[i] != c && s[j - 1] != c
            },
{
    let t = trim_start_char(s, c);
    lemma_trim_start_char(s, c);
    lemma_trim_end_char(t, c);
    lemma_trim_end_char_all(t, c);
    let i = s.len() - t.len();
    let j = i + trim_end_char(t, c).len();
    assert(trim_end_char(t, c) =~= s.subrange(i, j));
    assert forall|k: int| 0 <= k < i || j <= k < s.len() implies #[trigger] s[k] == c by {
        if k >= j {
            assert(t[k - i] == s[k]);
        }
    }
    if i < j {
        assert(s[j - 1] == trim_end_char(t, c).last());
        assert(s[i] == t[0]);
    }
    assert(0 <= i <= j <= s.len() && trim_char(s, c) == s.subrange(i, j));
}

proof fn lemma_trim_start_char(s: Seq<char>, c: char)
    ensures
        trim_start_char(s, c).len() <= s.len(),
        trim_start_char(s, c).len() > 0 ==> trim_start_char(s, c)[0] != c,
        trim_start_char(s, c) == s.skip(s.len() - trim_start_char(s, c).len()),
        forall|k: int| 0 <= k < s.len() - trim_start_char(s, c).len() ==> #[trigger] s[k] == c,
    decreases s.len(),
{
    if s.len() > 0 && s[0] == c {
        let t = s.drop_first();
        lemma_trim_start_char(t, c);
        let n = s.len() - trim_start_char(s, c).len();
        assert(t.skip(n - 1) =~= s.skip(n));
        assert forall|k: int| 0 <= k < n implies #[trigger] s[k] == c by {
            if k > 0 {
                assert(t[k - 1] == s[k]);
            }
        }
    } else {
        assert(s.skip(0) =~= s);
    }
}

proof fn lemma_trim_end_char_all(s: Seq<char>, c: char)
    ensures
        forall|k: int| trim_end_char(s, c).len() <= k < s.len() ==> #[trigger] s[k] == c,
    decreases s.len(),
{
    if s.len() > 0 && s.last() == c {
        lemma_trim_end_char_all(s.drop_last(), c);
        assert forall|k: int| trim_end_char(s, c).len() <= k < s.len() implies #[trigger] s[k] == c by {
            if k < s.len() - 1 {
                assert(s.drop_last()[k] == s[k]);
            }
        }
    }
}

/// The pieces with `c` between them.
pub open spec fn joined(parts: Seq<Seq<char>>, c: char) -> Seq<char>
    decreases parts.len(),
{
    if parts.len() == 0 {
        Seq::empty()
    } else if parts.len() == 1 {
        parts[0]
    } else {
        parts[0].push(c) + joined(parts.drop_first(), c)
    }
}

/// Splitting loses nothing: the pieces with the separator between them are the
/// text, and no piece holds the separator.
pub proof fn law_split_pieces_join_to_the_text(s: Seq<char>, c: char)
    ensures
        split(s, c).len() > 0,
        joined(split(s, c), c) == s,
        forall|i: int, j: int|
            0 <= i < split(s, c).len() && 0 <= j < split(s, c)[i].len() ==> #[trigger] split(s, c)[i][j] != c,
    decreases s.len(),
{
    lemma_first_index(s, c);
    let i = first_index(s, c);
    if i < s.len() {
        let rest = split(s.skip(i + 1), c);
        law_split_pieces_join_to_the_text(s.skip(i + 1), c);
        assert(split(s, c).drop_first() =~= rest);
        assert(s =~= s.take(i).push(c) + s.skip(i + 1));
        assert forall|a: int, j: int|
            0 <= a < split(s, c).len() && 0 <= j < split(s, c)[a].len() implies #[trigger] split(s, c)[a][j]
            != c by {
            if a > 0 {
                assert(split(s, c)[a] == rest[a - 1]);
                assert(rest[a - 1][j] != c);
            }
        }
    }
}

/// Splitting undoes joining: pieces without the separator come back as they are.
pub proof fn law_split_undoes_joining(parts: Seq<Seq<char>>, c: char)
    requires
        parts.len() > 0,
        forall|i: int, j: int| 0 <= i < parts.len() && 0 <= j < parts[i].len() ==> #[trigger] parts[i][j] != c,
    ensures
        split(joined(parts, c), c) == parts,
    decreases parts.len(),
{
    let s = joined(parts, c);
    lemma_first_index(s, c);
    let n = parts[0].len() as int;
    if parts.len() == 1 {
        if first_index(s, c) < s.len() {
            assert(parts[0][first_index(s, c)] != c);
        }
        assert(split(s, c) =~= parts);
    } else {
        let rest = parts.drop_first();
        assert forall|i: int, j: int| 0 <= i < rest.len() && 0 <= j < rest[i].len() implies #[trigger] rest[i][j]
            != c by {
            assert(rest[i] == parts[i + 1]);
            assert(parts[i + 1][j] != c);
        }
        law_split_undoes_joining(rest, c);
        assert(s[n] == c);
        if first_index(s, c) < n {
            assert(parts[0][first_index(s, c)] != c);
        }
        assert(first_index(s, c) == n);
        assert(s.take(n) =~= parts[0]);
        assert(s.skip(n + 1) =~= joined(rest, c));
        assert(split(s, c) =~= parts);
    }
}

/// Words are the runs between white space: white space ahead of them does not
/// count, a run that white space ends is the first word, and the rest of the
/// text gives the others.
pub proof fn law_words_are_the_runs_between_white_space(space: Seq<char>, word: Seq<char>, rest: Seq<char>)
    requires
        forall|i: int| 0 <= i < space.len() ==> is_white(#[trigger] space[i]),
        forall|i: int| 0 <= i < word.len() ==> !is_white(#[trigger] word[i]),
        rest.len() > 0 ==> is_white(rest[0]),
    ensures
        words(space) == Seq::<Seq<char>>::empty(),
        word.len() > 0 ==> words(space + word + rest) == seq![word] + words(rest),
{
    lemma_trim_start_of(space, Seq::empty());
    assert(space + Seq::<char>::empty() =~= space);
    if word.len() > 0 {
        let s = space + word + rest;
        lemma_trim_start_of(space, word + rest);
        assert(s =~= space + (word + rest));
        assert((word + rest)[0] == word[0]);
        let t = trim_start(s);
        assert(t == word + rest);
        lemma_white_index_of(word, rest);
        assert(t.take(word.len() as int) =~= word);
        assert(t.skip(word.len() as int) =~= rest);
    }
}

proof fn lemma_trim_start_of(space: Seq<char>, rest: Seq<char>)
    requires
        forall|i: int| 0 <= i < space.len() ==> is_white(#[trigger] space[i]),
        rest.len() > 0 ==> !is_white(rest[0]),
    ensures
        trim_start(space + rest) == rest,
    decreases space.len(),
{
    let s = space + rest;
    if space.len() > 0 {
        assert(is_white(space[0]));
        assert(s.drop_first() =~= space.drop_first() + rest);
        assert forall|i: int| 0 <= i < space.drop_first().len() implies is_white(
            #[trigger] space.drop_first()[i],
        ) by {
            assert(is_white(space[i + 1]));
        }
        lemma_trim_start_of(space.drop_first(), rest);
    } else {
        assert(s =~= rest);
    }
}

proof fn lemma_white_index_of(word: Seq<char>, rest: Seq<char>)
    requires
        forall|i: int| 0 <= i < word.len() ==> !is_white(#[trigger] word[i]),
        rest.len() > 0 ==> is_white(rest[0]),
    ensures
        white_index(word + rest) == word.len(),
    decreases word.len(),
{
    let s = word + rest;
    if word.len() > 0 {
        assert(!is_white(word[0]));
        assert(s.drop_first() =~= word.drop_first() + rest);
        assert forall|i: int| 0 <= i < word.drop_first().len() implies !is_white(
            #[trigger] word.drop_first()[i],
        ) by {
            assert(!is_white(word[i + 1]));
        }
        lemma_white_index_of(word.drop_first(), rest);
    } else {
        assert(s =~= rest);
    }
}

/// Numbers are written with the digits from `0` on, without a zero ahead; the
/// digits beyond nine are the letters from `a` on.
pub proof fn law_numbers_are_written_plainly(n: nat, d: int)
    ensures
        0 <= d < 10 ==> digit(d) as int == '0' as int + d,
        10 <= d < 16 ==> digit(d) as int == 'a' as int + (d - 10),
        is_number(decimal(n)),
        number(decimal(n)) == n,
        decimal(n)[0] == '0' <==> n == 0,
        n < 100 ==> decimal2(n) == seq![digit(n as int / 10), digit(n as int % 10)],
        n >= 10 ==> decimal2(n) == decimal(n),
        decimal_int(n as int) == decimal(n),
        n > 0 ==> decimal_int(-(n as int)) == seq!['-'] + decimal(n),
    decreases n,
{
    lemma_number_of_decimal(n);
    reveal_with_fuel(decimal, 3);
    if n >= 10 {
        law_numbers_are_written_plainly(n / 10, d);
        assert(decimal(n)[0] == decimal(n / 10)[0]);
    }
    if 10 <= n < 100 {
        assert(decimal(n) =~= seq![digit(n as int / 10), digit(n as int % 10)]);
    }
}

/// A number is read back as it was written, with a plus sign ahead or without,
/// up to the largest that is allowed. Nothing but digits is read.
pub proof fn law_written_numbers_are_read(n: nat, max: int, s: Seq<char>)
    ensures
        unsigned(decimal(n), max) == (if n <= max {
            Some(n as int)
        } else {
            None
        }),
        unsigned(seq!['+'] + decimal(n), max) == unsigned(decimal(n), max),
        unsigned(s, max) is Some ==> s.len() > 0 && forall|i: int|
            1 <= i < s.len() ==> '0' <= #[trigger] s[i] <= '9',
        unsigned(s, max) is Some ==> s[0] == '+' || '0' <= s[0] <= '9',
        unsigned(s, max) matches Some(k) ==> 0 <= k <= max,
{
    lemma_number_of_decimal(n);
    assert(is_digit(decimal(n)[0]));
    let p = seq!['+'] + decimal(n);
    assert(p.drop_first() =~= decimal(n));
    if unsigned(s, max) is Some {
        let d = if s.len() > 0 && s[0] == '+' {
            s.drop_first()
        } else {
            s
        };
        lemma_number_prefix(d, 0);
        assert forall|i: int| 1 <= i < s.len() implies '0' <= #[trigger] s[i] <= '9' by {
            if s[0] == '+' {
                assert(is_digit(d[i - 1]));
            } else {
                assert(is_digit(d[i]));
            }
        }
        if s[0] != '+' {
            assert(is_digit(d[0]));
        }
    }
}

/// Each byte is written with two digits, the higher one first.
pub proof fn law_hex_has_two_digits_for_each_byte(b: Seq<u8>, i: int)
    requires
        0 <= i < b.len(),
    ensures
        hex(b).len() == 2 * b.len(),
        hex(b)[2 * i] == digit(b[i] as int / 16),
        hex(b)[2 * i + 1] == digit(b[i] as int % 16),
    decreases b.len(),
{
    lemma_hex_len(b);
    lemma_hex_len(b.drop_last());
    if i < b.len() - 1 {
        law_hex_has_two_digits_for_each_byte(b.drop_last(), i);
    }
}

/// Replacing keeps each character but the one that is replaced.
pub proof fn law_replacing_changes_one_character(s: Seq<char>, from: char, to: char)
    ensures
        replaced(s, from, to).len() == s.len(),
        forall|i: int|
            0 <= i < s.len() ==> #[trigger] replaced(s, from, to)[i] == (if s[i] == from {
                to
            } else {
                s[i]
            }),
        (forall|i: int| 0 <= i < s.len() ==> #[trigger] s[i] != from) ==> replaced(s, from, to) == s,
{
    if forall|i: int| 0 <= i < s.len() ==> #[trigger] s[i] != from {
        assert(replaced(s, from, to) =~= s);
    }
}

/// A text starts, ends or has a part exactly as it is put together.
pub proof fn law_parts_of_a_text(s: Seq<char>, p: Seq<char>)
    ensures
        starts_with(s, p) <==> exists|t: Seq<char>| s == #[trigger] (p + t),
        ends_with(s, p) <==> exists|t: Seq<char>| s == #[trigger] (t + p),
        has_part(s, p) <==> exists|a: Seq<char>, b: Seq<char>| s == #[trigger] (a + p + b),
{
    if starts_with(s, p) {
        assert(s =~= p + s.skip(p.len() as int));
    }
    assert forall|t: Seq<char>| s == #[trigger] (p + t) implies starts_with(s, p) by {
        assert(s.take(p.len() as int) =~= p);
    }
    if ends_with(s, p) {
        assert(s =~= s.take(s.len() - p.len()) + p);
    }
    assert forall|t: Seq<char>| s == #[trigger] (t + p) implies ends_with(s, p) by {
        assert(s.skip(s.len() - p.len()) =~= p);
    }
    if has_part(s, p) {
        let i = choose|i: int| #[trigger] stands_at(s, p, i);
        assert(s =~= s.take(i) + p + s.skip(i + p.len()));
    }
    assert forall|a: Seq<char>, b: Seq<char>| s == #[trigger] (a + p + b) implies has_part(s, p) by {
        assert(s.subrange(a.len() as int, (a.len() + p.len()) as int) =~= p);
        assert(stands_at(s, p, a.len() as int));
    }
}

/// The case of ASCII letters, and of nothing else, is changed.
pub proof fn law_ascii_case(c: char)
    ensures
        'A' <= c <= 'Z' ==> ascii_lower(c) as int == c as int + 32,
        !('A' <= c <= 'Z') ==> ascii_lower(c) == c,
        'a' <= c <= 'z' ==> ascii_upper(c) as int == c as int - 32,
        !('a' <= c <= 'z') ==> ascii_upper(c) == c,
{
}

/// A text that ends in a part has it taken off, as often as it stands there,
/// and no other text is changed.
pub proof fn law_end_parts_are_taken_off(s: Seq<char>, p: Seq<char>)
    ensures
        trim_end_part(s + p, p) == trim_end_part(s, p),
        p.len() > 0 ==> !ends_with(trim_end_part(s, p), p),
        !ends_with(s, p) ==> trim_end_part(s, p) == s,
    decreases s.len(),
{
    if p.len() > 0 {
        assert((s + p).skip(s.len() as int) =~= p);
        assert((s + p).take(s.len() as int) =~= s);
        if ends_with(s, p) {
            law_end_parts_are_taken_off(s.take(s.len() - p.len()), p);
        }
    } else {
        assert(s + p =~= s);
    }
}

/// A path ends in the name behind its last slash; slashes and `.` behind that
/// do not count, and `..` is no name.
pub proof fn law_path_ends_in_its_name(dir: Seq<char>, name: Seq<char>)
    requires
        name.len() > 0,
        name != "."@,
        forall|i: int| 0 <= i < name.len() ==> #[trigger] name[i] != '/',
    ensures
        name != ".."@ ==> file_name(name) == Some(name) && file_name(dir + seq!['/'] + name) == Some(name),
        name == ".."@ ==> file_name(name) is None && file_name(dir + seq!['/'] + name) is None,
        file_name(dir.push('/')) == file_name(dir),
        file_name(dir.push('/') + "."@) == file_name(dir),
{
    reveal_strlit(".");
    reveal_strlit("..");
    let none = Seq::<char>::empty();
    lemma_first_index(name, '/');
    assert(split(name, '/').last() == name);
    lemma_split_behind(dir, name);
    lemma_split_behind(dir, none);
    lemma_split_behind(dir, "."@);
    assert(dir + seq!['/'] + name =~= dir.push('/') + name);
    assert(dir.push('/') + none =~= dir.push('/'));
    assert((split(dir, '/').push(none)).drop_last() =~= split(dir, '/'));
    assert((split(dir, '/').push("."@)).drop_last() =~= split(dir, '/'));
}

/// A piece without slashes behind a slash is the last of the pieces.
pub proof fn lemma_split_behind(dir: Seq<char>, name: Seq<char>)
    requires
        forall|i: int| 0 <= i < name.len() ==> #[trigger] name[i] != '/',
    ensures
        split(dir.push('/') + name, '/') == split(dir, '/').push(name),
    decreases dir.len(),
{
    let s = dir.push('/') + name;
    lemma_first_index(s, '/');
    lemma_first_index(dir, '/');
    lemma_first_index(name, '/');
    assert(s[dir.len() as int] == '/');
    let i = first_index(s, '/');
    if i < dir.len() {
        assert(dir[i] == s[i]);
        if first_index(dir, '/') < i {
            assert(s[first_index(dir, '/')] == '/');
        }
        assert(first_index(dir, '/') == i);
        lemma_split_behind(dir.skip(i + 1), name);
        assert(s.skip(i + 1) =~= dir.skip(i + 1).push('/') + name);
        assert(s.take(i) =~= dir.take(i));
        assert(split(s, '/') =~= split(dir, '/').push(name));
    } else {
        if first_index(dir, '/') < dir.len() {
            assert(s[first_index(dir, '/')] == '/');
        }
        assert(s.take(i) =~= dir);
        assert(s.skip(i + 1) =~= name);
        assert(split(name, '/') =~= seq![name]);
        assert(split(s, '/') =~= split(dir, '/').push(name));
    }
}

/// The extension of a file name is what follows its last dot, dot included; a
/// name whose only dot comes first has none.
pub proof fn law_extension_follows_the_last_dot(stem: Seq<char>, ext: Seq<char>)
    requires
        forall|i: int| 0 <= i < ext.len() ==> #[trigger] ext[i] != '.',
    ensures
        stem.len() > 0 ==> ext_start(stem + seq!['.'] + ext) == stem.len(),
        ext_start(ext) == ext.len(),
        ext_start(seq!['.'] + ext) == ext.len() + 1,
{
    lemma_last_index(stem + seq!['.'] + ext, '.');
    lemma_last_index(ext, '.');
    lemma_last_index(seq!['.'] + ext, '.');
    let s = stem + seq!['.'] + ext;
    assert(s[stem.len() as int] == '.');
    assert forall|i: int| stem.len() < i < s.len() implies s[i] != '.' by {
        assert(s[i] == ext[i - stem.len() - 1]);
    }
    let t = seq!['.'] + ext;
    assert(t[0] == '.');
    assert forall|i: int| 0 < i < t.len() implies t[i] != '.' by {
        assert(t[i] == ext[i - 1]);
    }
}

} // verus!
