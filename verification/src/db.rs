//! What the index decides: which of its rows an operation touches, and what a
//! search shows. The rows lie in a database that can always be built anew.
use vstd::prelude::*;

use crate::fs_ops;
use crate::fs_ops::find_part;
use crate::strmap::StrMap;
use crate::text;
use crate::text::{concat, concat3, from_range, has_prefix, same, strip_prefix, to_chars, to_lower, trim};

verus! {

// ---------- search ----------

/// A character as it stands in a pattern: with a backslash where it would stand
/// for others.
pub open spec fn escaped_char(c: char) -> Seq<char> {
    if c == '%' || c == '_' || c == '\\' {
        seq!['\\', c]
    } else {
        seq![c]
    }
}

/// A text as it stands in a pattern, where no character stands for others.
pub open spec fn escaped(q: Seq<char>) -> Seq<char>
    decreases q.len(),
{
    if q.len() == 0 {
        Seq::empty()
    } else {
        escaped(q.drop_last()) + escaped_char(q.last())
    }
}

/// A text as it stands in a pattern.
pub fn escape_like(q: &str) -> (r: String)
    ensures
        r@ == escaped(q@),
{
    let v = to_chars(q);
    let mut r: String = String::new();
    let mut i: usize = 0;
    assert(r@ =~= escaped(v@.take(0)));
    while i < v.len()
        invariant
            i <= v.len(),
            r@ == escaped(v@.take(i as int)),
        decreases v.len() - i,
    {
        let c: char = v[i];
        assert(v@.take(i + 1).drop_last() =~= v@.take(i as int));
        let ghost before = r@;
        if c == '%' || c == '_' || c == '\\' {
            r.push('\\');
        }
        r.push(c);
        assert(r@ =~= before + escaped_char(c));
        i = i + 1;
    }
    assert(v@.take(v@.len() as int) =~= v@);
    r
}

/// A pattern read back: a backslash hands on the character behind it.
pub open spec fn unescaped(p: Seq<char>) -> Seq<char>
    decreases p.len(),
{
    if p.len() == 0 {
        Seq::empty()
    } else if p[0] == '\\' && p.len() >= 2 {
        seq![p[1]] + unescaped(p.skip(2))
    } else {
        seq![p[0]] + unescaped(p.skip(1))
    }
}

/// Whether each `%` and `_` stands behind a backslash that hands it on.
pub open spec fn all_literal(p: Seq<char>) -> bool
    decreases p.len(),
{
    if p.len() == 0 {
        true
    } else if p[0] == '\\' {
        p.len() >= 2 && all_literal(p.skip(2))
    } else {
        p[0] != '%' && p[0] != '_' && all_literal(p.skip(1))
    }
}

proof fn lemma_escaped_head(q: Seq<char>)
    requires
        q.len() > 0,
    ensures
        escaped(q) == escaped_char(q[0]) + escaped(q.drop_first()),
    decreases q.len(),
{
    if q.len() == 1 {
        assert(q.drop_last() =~= Seq::<char>::empty());
        assert(q.drop_first() =~= Seq::<char>::empty());
        assert(escaped(q) =~= escaped_char(q[0]) + escaped(q.drop_first()));
    } else {
        lemma_escaped_head(q.drop_last());
        assert(q.drop_last().drop_first() =~= q.drop_first().drop_last());
        assert(q.drop_first().last() == q.last());
        assert(escaped(q) =~= escaped_char(q[0]) + escaped(q.drop_first()));
    }
}

/// What a user types is searched for as it stands: no character of it stands
/// for others, and reading the pattern back gives the text.
pub proof fn law_searched_text_is_literal(q: Seq<char>)
    ensures
        all_literal(escaped(q)),
        unescaped(escaped(q)) == q,
    decreases q.len(),
{
    if q.len() > 0 {
        lemma_escaped_head(q);
        law_searched_text_is_literal(q.drop_first());
        let e = escaped(q);
        let n = escaped_char(q[0]).len() as int;
        assert(e.skip(n) =~= escaped(q.drop_first()));
        assert(seq![q[0]] + q.drop_first() =~= q);
    }
}

/// A note that a search found.
#[derive(Debug, PartialEq, Eq)]
pub struct SearchHit {
    pub path: String,
    pub title: String,
    pub snippet: String,
}

pub struct SearchHitView {
    pub path: Seq<char>,
    pub title: Seq<char>,
    pub snippet: Seq<char>,
}

impl View for SearchHit {
    type V = SearchHitView;

    open spec fn view(&self) -> SearchHitView {
        SearchHitView { path: self.path@, title: self.title@, snippet: self.snippet@ }
    }
}

/// The smaller of two numbers.
pub open spec fn smaller(a: int, b: int) -> int {
    if a <= b {
        a
    } else {
        b
    }
}

/// The part of a text around its first hit, where `lower_body` and `lower_q`
/// are the text and what is searched for in lower case: up to forty characters
/// before and behind it, with dots where text is left out, on one line.
pub open spec fn snippet_of(body: Seq<char>, lower_body: Seq<char>, lower_q: Seq<char>) -> Option<
    Seq<char>,
> {
    if !text::has_part(lower_body, lower_q) {
        None
    } else {
        let at = smaller(fs_ops::part_index(lower_body, lower_q), body.len() as int);
        let start = if at <= 40 {
            0
        } else {
            at - 40
        };
        let end = smaller(at + lower_q.len() + 40, body.len() as int);
        let head = if start > 0 {
            "…"@
        } else {
            Seq::empty()
        };
        let tail = if end < body.len() {
            "…"@
        } else {
            Seq::empty()
        };
        Some(text::replaced(head + body.subrange(start, end) + tail, '\n', ' '))
    }
}

proof fn lemma_part_index(s: Seq<char>, p: Seq<char>)
    ensures
        0 <= fs_ops::part_index(s, p) <= s.len(),
        text::has_part(s, p) <==> text::stands_at(s, p, fs_ops::part_index(s, p)),
    decreases s.len(),
{
    if s.len() == 0 || text::starts_with(s, p) {
        if text::starts_with(s, p) {
            assert(s.subrange(0, p.len() as int) =~= s.take(p.len() as int));
            assert(text::stands_at(s, p, 0));
        } else if text::has_part(s, p) {
            let i = choose|i: int| #[trigger] text::stands_at(s, p, i);
            assert(i == 0);
        }
    } else {
        let t = s.drop_first();
        lemma_part_index(t, p);
        let k = fs_ops::part_index(t, p);
        assert(fs_ops::part_index(s, p) == 1 + k);
        if text::has_part(s, p) {
            let i = choose|i: int| #[trigger] text::stands_at(s, p, i);
            if i == 0 {
                assert(s.subrange(0, p.len() as int) =~= s.take(p.len() as int));
            } else {
                assert(t.subrange(i - 1, i - 1 + p.len()) =~= s.subrange(i, i + p.len()));
                assert(text::stands_at(t, p, i - 1));
            }
        }
        if k + p.len() <= t.len() {
            assert(t.subrange(k, k + p.len()) =~= s.subrange(k + 1, k + 1 + p.len()));
        }
    }
}

/// The part of a text around its first hit, given the text and what is searched
/// for in lower case. Lower case may have other lengths than the text itself.
pub fn snippet(body: &str, lower_body: &str, lower_q: &str) -> (r: Option<String>)
    ensures
        text::opt_view(r) == snippet_of(body@, lower_body@, lower_q@),
{
    let low = to_chars(lower_body);
    let q = to_chars(lower_q);
    let k: usize = find_part(&low, lower_q);
    proof {
        lemma_part_index(lower_body@, lower_q@);
    }
    if !text::part_at(&low, &q, k) {
        return None;
    }
    let chars = to_chars(body);
    let at: usize = if k <= chars.len() {
        k
    } else {
        chars.len()
    };
    let start: usize = if at <= 40 {
        0
    } else {
        at - 40
    };
    let left: usize = chars.len() - at;
    let end: usize = if left <= 40 || left - 40 <= q.len() {
        chars.len()
    } else {
        at + q.len() + 40
    };
    let mut s: String = from_range(&chars, start, end);
    if start > 0 {
        s = concat("…", s.as_str());
    }
    if end < chars.len() {
        s = concat(s.as_str(), "…");
    }
    proof {
        let head = if start > 0 {
            "…"@
        } else {
            Seq::empty()
        };
        let tail = if end < body@.len() {
            "…"@
        } else {
            Seq::empty()
        };
        assert(s@ =~= head + body@.subrange(start as int, end as int) + tail);
    }
    Some(text::replace_char(s.as_str(), '\n', ' '))
}

/// The part of a text around its first hit, without regard to case.
pub fn make_snippet(body: &str, q: &str) -> (r: Option<String>)
    ensures
        text::opt_view(r) == snippet_of(body@, text::lowercase(body@), text::lowercase(q@)),
{
    let lower_body = to_lower(body);
    let lower_q = to_lower(q);
    snippet(body, lower_body.as_str(), lower_q.as_str())
}

/// What a search shows of a note: the part around the hit, else its beginning.
pub open spec fn shown(body: Seq<char>, around: Option<Seq<char>>) -> Seq<char> {
    match around {
        Some(s) => s,
        None => body.take(smaller(60, body.len() as int)),
    }
}

/// A hit, given the part around it.
pub open spec fn hit_of(row: (Seq<char>, Seq<char>, Seq<char>), around: Option<Seq<char>>) -> SearchHitView {
    SearchHitView { path: row.0, title: row.1, snippet: shown(row.2, around) }
}

/// The hit that a row is for a search.
pub open spec fn hit_for(row: (Seq<char>, Seq<char>, Seq<char>), q: Seq<char>) -> SearchHitView {
    hit_of(row, snippet_of(row.2, text::lowercase(row.2), text::lowercase(q)))
}

/// A hit, given the part around it.
pub fn search_hit(path: &str, title: &str, body: &str, around: Option<String>) -> (r: SearchHit)
    ensures
        r@ == hit_of((path@, title@, body@), text::opt_view(around)),
{
    let snippet: String = match around {
        Some(s) => s,
        None => {
            let v = to_chars(body);
            let n: usize = if v.len() < 60 {
                v.len()
            } else {
                60
            };
            let s = from_range(&v, 0, n);
            assert(s@ =~= body@.take(smaller(60, body@.len() as int)));
            s
        },
    };
    SearchHit { path: path.to_owned(), title: title.to_owned(), snippet }
}

/// The rows that a query gave, by their views.
pub open spec fn row_views(s: Seq<(String, String, String)>) -> Seq<(Seq<char>, Seq<char>, Seq<char>)> {
    s.map_values(|t: (String, String, String)| (t.0@, t.1@, t.2@))
}

/// The pattern that a search looks for: what was typed, anywhere.
pub open spec fn pattern_of(q: Seq<char>) -> Seq<char> {
    "%"@ + escaped(q) + "%"@
}

/// Whether `r` is what a search for `q` finds; `select` gives the rows that
/// match a pattern, no more of them than the limit.
pub open spec fn found<S: Fn(&String, i64) -> Result<Vec<(String, String, String)>, String>>(
    select: S,
    q: Seq<char>,
    limit: i64,
    r: Result<Seq<SearchHitView>, Seq<char>>,
) -> bool {
    exists|p: String, rows: Result<Vec<(String, String, String)>, String>|
        {
            &&& #[trigger] call_ensures(select, (&p, limit), rows)
            &&& p@ == pattern_of(q)
            &&& r == match rows {
                Ok(list) => Ok(
                    row_views(list@).map_values(|row: (Seq<char>, Seq<char>, Seq<char>)| hit_for(row, q)),
                ),
                Err(e) => Err(e@),
            }
        }
}

/// Hits or a failure, by their views.
pub open spec fn hits_view(r: Result<Vec<SearchHit>, String>) -> Result<Seq<SearchHitView>, Seq<char>> {
    match r {
        Ok(list) => Ok(text::views(list@)),
        Err(e) => Err(e@),
    }
}

/// Whether `select` may be asked for what `query` looks for, with the limit.
pub open spec fn search_leave<S: Fn(&String, i64) -> Result<Vec<(String, String, String)>, String>>(
    select: S,
    query: Seq<char>,
    limit: i64,
) -> bool {
    forall|p: &String|
        text::trimmed(query).len() > 0 && p@ == pattern_of(text::trimmed(query))
            ==> #[trigger] call_requires(select, (p, limit))
}

/// Whether `r` is what a search comes to. An empty search finds nothing.
pub open spec fn search_outcome<S: Fn(&String, i64) -> Result<Vec<(String, String, String)>, String>>(
    select: S,
    query: Seq<char>,
    limit: i64,
    r: Result<Vec<SearchHit>, String>,
) -> bool {
    if text::trimmed(query).len() == 0 {
        r is Ok && r->Ok_0@.len() == 0
    } else {
        found(select, text::trimmed(query), limit, hits_view(r))
    }
}

/// The notes that a search finds. `select` gives the rows that match a pattern,
/// no more of them than the limit that it is handed. An empty search finds
/// nothing, and asks for nothing.
pub fn search<S: Fn(&String, i64) -> Result<Vec<(String, String, String)>, String>>(
    query: &str,
    limit: i64,
    select: S,
) -> (r: Result<Vec<SearchHit>, String>)
    requires
        search_leave(select, query@, limit),
    ensures
        search_outcome(select, query@, limit, r),
{
    let q = trim(query);
    if q.as_str().is_empty() {
        return Ok(Vec::new());
    }
    let e = escape_like(q.as_str());
    let p = concat3("%", e.as_str(), "%");
    let rows = select(&p, limit);
    assert(call_ensures(select, (&p, limit), rows));
    match rows {
        Err(e) => Err(e),
        Ok(list) => {
            let ghost all = row_views(list@);
            let ghost f = |row: (Seq<char>, Seq<char>, Seq<char>)| hit_for(row, q@);
            let mut out: Vec<SearchHit> = Vec::new();
            let mut i: usize = 0;
            assert(text::views(out@) =~= all.take(0).map_values(f));
            while i < list.len()
                invariant
                    i <= list.len(),
                    all == row_views(list@),
                    f == (|row: (Seq<char>, Seq<char>, Seq<char>)| hit_for(row, q@)),
                    text::views(out@) == all.take(i as int).map_values(f),
                decreases list.len() - i,
            {
                broadcast use text::lemma_views_push;
                assert(all[i as int] == (list@[i as int].0@, list@[i as int].1@, list@[i as int].2@));
                assert(all.take(i + 1).map_values(f) =~= all.take(i as int).map_values(f).push(
                    f(all[i as int]),
                ));
                let row = &list[i];
                let around = make_snippet(row.2.as_str(), q.as_str());
                out.push(search_hit(row.0.as_str(), row.1.as_str(), row.2.as_str(), around));
                i = i + 1;
            }
            assert(all.take(all.len() as int) =~= all);
            Ok(out)
        },
    }
}

// ---------- rows below a folder ----------

/// Whether a path is the entry or lies below it.
pub open spec fn is_within(path: Seq<char>, prefix: Seq<char>) -> bool {
    path == prefix || text::starts_with(path, prefix + "/"@)
}

fn within(path: &str, prefix: &str) -> (r: bool)
    ensures
        r == is_within(path@, prefix@),
{
    let with_slash = concat(prefix, "/");
    same(path, prefix) || has_prefix(path, with_slash.as_str())
}

/// Whether a path lies neither at the entry nor below it.
pub open spec fn stands_outside(prefix: Seq<char>) -> spec_fn(Seq<char>) -> bool {
    |path: Seq<char>| !is_within(path, prefix)
}

/// The rows that stay when an entry goes, with all below it.
pub fn remove_prefix(paths: &Vec<String>, prefix: &str) -> (r: Vec<String>)
    ensures
        text::views(r@) == text::views(paths@).filter(stands_outside(prefix@)),
{
    let ghost all = text::views(paths@);
    let ghost f = stands_outside(prefix@);
    let mut out: Vec<String> = Vec::new();
    let mut i: usize = 0;
    proof {
        reveal(Seq::filter);
    }
    assert(text::views(out@) =~= all.take(0).filter(f));
    while i < paths.len()
        invariant
            i <= paths.len(),
            all == text::views(paths@),
            f == stands_outside(prefix@),
            text::views(out@) == all.take(i as int).filter(f),
        decreases paths.len() - i,
    {
        broadcast use text::lemma_views_push;
        assert(all.take(i + 1) =~= all.take(i as int).push(paths@[i as int]@));
        proof {
            all.take(i as int).lemma_filter_push(paths@[i as int]@, f);
        }
        if !within(paths[i].as_str(), prefix) {
            out.push(paths[i].clone());
        }
        i = i + 1;
    }
    assert(all.take(all.len() as int) =~= all);
    out
}

/// Whether a path is the entry or lies below it.
pub open spec fn stands_within(prefix: Seq<char>) -> spec_fn(Seq<char>) -> bool {
    |path: Seq<char>| is_within(path, prefix)
}

/// The notes at an entry and below it.
pub fn list_prefix_paths(notes: &Vec<String>, prefix: &str) -> (r: Vec<String>)
    ensures
        text::views(r@) == text::views(notes@).filter(stands_within(prefix@)),
{
    let ghost all = text::views(notes@);
    let ghost f = stands_within(prefix@);
    let mut out: Vec<String> = Vec::new();
    let mut i: usize = 0;
    proof {
        reveal(Seq::filter);
    }
    assert(text::views(out@) =~= all.take(0).filter(f));
    while i < notes.len()
        invariant
            i <= notes.len(),
            all == text::views(notes@),
            f == stands_within(prefix@),
            text::views(out@) == all.take(i as int).filter(f),
        decreases notes.len() - i,
    {
        broadcast use text::lemma_views_push;
        assert(all.take(i + 1) =~= all.take(i as int).push(notes@[i as int]@));
        proof {
            all.take(i as int).lemma_filter_push(notes@[i as int]@, f);
        }
        if within(notes[i].as_str(), prefix) {
            out.push(notes[i].clone());
        }
        i = i + 1;
    }
    assert(all.take(all.len() as int) =~= all);
    out
}

/// The path of a row after an entry was renamed: first the row of the entry
/// itself gets the new path, then what lies below the old one.
pub open spec fn renamed_path(path: Seq<char>, old_prefix: Seq<char>, new_prefix: Seq<char>) -> Seq<char> {
    let own = if path == old_prefix {
        new_prefix
    } else {
        path
    };
    let slash = old_prefix + "/"@;
    if text::starts_with(own, slash) {
        new_prefix + "/"@ + own.skip(slash.len() as int)
    } else {
        own
    }
}

/// The path of a row after an entry was renamed.
pub fn rename_path(path: &str, old_prefix: &str, new_prefix: &str) -> (r: String)
    ensures
        r@ == renamed_path(path@, old_prefix@, new_prefix@),
{
    let own: &str = if same(path, old_prefix) {
        new_prefix
    } else {
        path
    };
    let slash = concat(old_prefix, "/");
    match strip_prefix(own, slash.as_str()) {
        Some(rest) => concat3(new_prefix, "/", rest.as_str()),
        None => own.to_owned(),
    }
}

/// The paths of the rows after an entry was renamed.
pub fn rename_paths(paths: &Vec<String>, old_prefix: &str, new_prefix: &str) -> (r: Vec<String>)
    ensures
        text::views(r@) == text::views(paths@).map_values(
            |p: Seq<char>| renamed_path(p, old_prefix@, new_prefix@),
        ),
{
    let ghost all = text::views(paths@);
    let ghost f = |p: Seq<char>| renamed_path(p, old_prefix@, new_prefix@);
    let mut out: Vec<String> = Vec::new();
    let mut i: usize = 0;
    assert(text::views(out@) =~= all.take(0).map_values(f));
    while i < paths.len()
        invariant
            i <= paths.len(),
            all == text::views(paths@),
            f == (|p: Seq<char>| renamed_path(p, old_prefix@, new_prefix@)),
            text::views(out@) == all.take(i as int).map_values(f),
        decreases paths.len() - i,
    {
        broadcast use text::lemma_views_push;
        assert(all.take(i + 1).map_values(f) =~= all.take(i as int).map_values(f).push(
            f(paths@[i as int]@),
        ));
        out.push(rename_path(paths[i].as_str(), old_prefix, new_prefix));
        i = i + 1;
    }
    assert(all.take(all.len() as int) =~= all);
    out
}

/// Renaming an entry takes along what lies below it, under the same name there,
/// and nothing else.
pub proof fn law_rename_takes_what_lies_below(
    path: Seq<char>,
    rest: Seq<char>,
    old_prefix: Seq<char>,
    new_prefix: Seq<char>,
)
    ensures
        !text::starts_with(new_prefix, old_prefix + "/"@) ==> renamed_path(
            old_prefix,
            old_prefix,
            new_prefix,
        ) == new_prefix,
        renamed_path(old_prefix + "/"@ + rest, old_prefix, new_prefix) == new_prefix + "/"@ + rest,
        !is_within(path, old_prefix) ==> renamed_path(path, old_prefix, new_prefix) == path,
{
    reveal_strlit("/");
    let slash = old_prefix + "/"@;
    let below = slash + rest;
    assert(below.take(slash.len() as int) =~= slash);
    assert(below.skip(slash.len() as int) =~= rest);
    assert(below.len() > old_prefix.len());
}

// ---------- recent and favourite notes ----------

/// Rows of a path with a time, by their views.
pub open spec fn dated_views(s: Seq<(String, i64)>) -> Seq<(Seq<char>, i64)> {
    s.map_values(|t: (String, i64)| (t.0@, t.1))
}

/// The rows newest first with one more, behind those of the same time.
pub open spec fn dated_insert(s: Seq<(Seq<char>, i64)>, d: (Seq<char>, i64)) -> Seq<(Seq<char>, i64)>
    decreases s.len(),
{
    if s.len() > 0 && s.last().1 < d.1 {
        dated_insert(s.drop_last(), d).push(s.last())
    } else {
        s.push(d)
    }
}

/// The rows newest first; those of the same time stay as they were.
pub open spec fn newest_first(s: Seq<(Seq<char>, i64)>) -> Seq<(Seq<char>, i64)>
    decreases s.len(),
{
    if s.len() == 0 {
        Seq::empty()
    } else {
        dated_insert(newest_first(s.drop_last()), s.last())
    }
}

fn insert_dated(out: &mut Vec<(String, i64)>, d: (String, i64))
    ensures
        dated_views(final(out)@) == dated_insert(dated_views(old(out)@), (d.0@, d.1)),
{
    let ghost s = dated_views(out@);
    let ghost dv = (d.0@, d.1);
    let mut k: usize = out.len();
    assert(s.take(k as int) =~= s);
    assert(dated_insert(s.take(k as int), dv) + s.skip(k as int) =~= dated_insert(s, dv));
    while k > 0 && out[k - 1].1 < d.1
        invariant
            k <= out.len(),
            s == dated_views(out@),
            dv == (d.0@, d.1),
            dated_insert(s.take(k as int), dv) + s.skip(k as int) == dated_insert(s, dv),
        decreases k,
    {
        assert(s.take(k as int).last() == (out@[k - 1].0@, out@[k - 1].1));
        assert(s.take(k as int).drop_last() =~= s.take(k - 1));
        assert(dated_insert(s.take(k - 1), dv).push(s[k - 1]) + s.skip(k as int) =~= dated_insert(
            s.take(k - 1),
            dv,
        ) + s.skip(k - 1));
        k = k - 1;
    }
    assert(k > 0 ==> s.take(k as int).last() == (out@[k - 1].0@, out@[k - 1].1));
    assert(s.take(k as int).push(dv) + s.skip(k as int) =~= s.insert(k as int, dv));
    out.insert(k, d);
    assert(dated_views(out@) =~= s.insert(k as int, dv));
}

fn sort_dated(list: &Vec<(String, i64)>) -> (r: Vec<(String, i64)>)
    ensures
        dated_views(r@) == newest_first(dated_views(list@)),
{
    let ghost all = dated_views(list@);
    let mut out: Vec<(String, i64)> = Vec::new();
    let mut i: usize = 0;
    assert(dated_views(out@) =~= newest_first(all.take(0)));
    while i < list.len()
        invariant
            i <= list.len(),
            all == dated_views(list@),
            dated_views(out@) == newest_first(all.take(i as int)),
        decreases list.len() - i,
    {
        assert(all.take(i + 1).drop_last() =~= all.take(i as int));
        assert(all.take(i + 1).last() == (list@[i as int].0@, list@[i as int].1));
        insert_dated(&mut out, (list[i].0.clone(), list[i].1));
        i = i + 1;
    }
    assert(all.take(all.len() as int) =~= all);
    out
}

/// Whether a row is of another path.
pub open spec fn dated_other(path: Seq<char>) -> spec_fn((Seq<char>, i64)) -> bool {
    |t: (Seq<char>, i64)| t.0 != path
}

fn without_path(list: &Vec<(String, i64)>, path: &str) -> (r: Vec<(String, i64)>)
    ensures
        dated_views(r@) == dated_views(list@).filter(dated_other(path@)),
{
    let ghost all = dated_views(list@);
    let ghost f = dated_other(path@);
    let mut out: Vec<(String, i64)> = Vec::new();
    let mut i: usize = 0;
    proof {
        reveal(Seq::filter);
    }
    assert(dated_views(out@) =~= all.take(0).filter(f));
    while i < list.len()
        invariant
            i <= list.len(),
            all == dated_views(list@),
            f == dated_other(path@),
            dated_views(out@) == all.take(i as int).filter(f),
        decreases list.len() - i,
    {
        let ghost row = (list@[i as int].0@, list@[i as int].1);
        assert(all.take(i + 1) =~= all.take(i as int).push(row));
        proof {
            all.take(i as int).lemma_filter_push(row, f);
        }
        if !same(list[i].0.as_str(), path) {
            let ghost before = out@;
            out.push((list[i].0.clone(), list[i].1));
            assert(dated_views(out@) =~= dated_views(before).push(row));
        }
        i = i + 1;
    }
    assert(all.take(all.len() as int) =~= all);
    out
}

/// How many rows `keep` allows of a list; a negative number allows none.
pub open spec fn kept_of(len: nat, keep: i64) -> int {
    if keep < 0 {
        0
    } else {
        smaller(keep as int, len as int)
    }
}

/// The recent notes after one was opened: it has the new time, and only the
/// newest `keep` stay.
pub open spec fn recents_after(
    list: Seq<(Seq<char>, i64)>,
    path: Seq<char>,
    now_ms: i64,
    keep: i64,
) -> Seq<(Seq<char>, i64)> {
    let all = newest_first(list.filter(dated_other(path)).push((path, now_ms)));
    all.take(kept_of(all.len(), keep))
}

/// Takes note that a note was opened.
pub fn record_recent(list: &mut Vec<(String, i64)>, path: &str, now_ms: i64, keep: i64)
    ensures
        dated_views(final(list)@) == recents_after(dated_views(old(list)@), path@, now_ms, keep),
{
    let mut rows = without_path(list, path);
    let ghost before = dated_views(rows@);
    rows.push((path.to_owned(), now_ms));
    assert(dated_views(rows@) =~= before.push((path@, now_ms)));
    let mut out = sort_dated(&rows);
    let ghost all = dated_views(out@);
    while out.len() > 0 && (keep < 0 || out.len() as u64 > keep as u64)
        invariant
            dated_views(out@) == all.take(out@.len() as int),
            out@.len() >= kept_of(all.len(), keep),
            out@.len() <= all.len(),
        decreases out@.len(),
    {
        let ghost was = out@;
        out.pop();
        assert(dated_views(out@) =~= all.take(out@.len() as int)) by {
            assert(was.drop_last() =~= out@);
            assert forall|j: int| 0 <= j < out@.len() implies dated_views(out@)[j] == all[j] by {
                assert(dated_views(was)[j] == all.take(was.len() as int)[j]);
            }
        }
    }
    *list = out;
}

proof fn lemma_dated_insert(s: Seq<(Seq<char>, i64)>, d: (Seq<char>, i64))
    ensures
        dated_insert(s, d).to_multiset() == s.to_multiset().insert(d),
        dated_insert(s, d).len() == s.len() + 1,
        by_age(s) ==> by_age(dated_insert(s, d)),
        forall|i: int| 0 <= i < dated_insert(s, d).len() ==> (#[trigger] dated_insert(s, d)[i]) == d || s.contains(
            dated_insert(s, d)[i],
        ),
    decreases s.len(),
{
    broadcast use vstd::seq_lib::group_to_multiset_ensures;
    if s.len() > 0 && s.last().1 < d.1 {
        let rest = s.drop_last();
        let r = dated_insert(rest, d);
        lemma_dated_insert(rest, d);
        assert(rest.push(s.last()) =~= s);
        assert(dated_insert(s, d) == r.push(s.last()));
        assert(r.push(s.last()).to_multiset() =~= s.to_multiset().insert(d));
        let q = r.push(s.last());
        assert forall|i: int| 0 <= i < q.len() implies (#[trigger] q[i]) == d || s.contains(q[i]) by {
            if i < r.len() {
                assert(q[i] == r[i]);
                if r[i] != d {
                    let k = choose|k: int| 0 <= k < rest.len() && rest[k] == r[i];
                    assert(s[k] == r[i]);
                }
            } else {
                assert(s[s.len() - 1] == q[i]);
            }
        }
        if by_age(s) {
            assert(by_age(rest)) by {
                assert forall|i: int, j: int| 0 <= i < j < rest.len() implies (#[trigger] rest[j]).1 <= (
                #[trigger] rest[i]).1 by {
                    assert(s[j].1 <= s[i].1);
                }
            }
            assert forall|i: int, j: int| 0 <= i < j < q.len() implies (#[trigger] q[j]).1 <= (
            #[trigger] q[i]).1 by {
                if j < r.len() {
                    assert(q[i] == r[i] && q[j] == r[j]);
                } else {
                    assert(q[i] == r[i]);
                    if r[i] != d {
                        let k = choose|k: int| 0 <= k < rest.len() && rest[k] == r[i];
                        assert(s[k] == r[i]);
                        assert(s[s.len() - 1].1 <= s[k].1);
                    }
                }
            }
        }
    } else {
        let q = s.push(d);
        assert forall|i: int| 0 <= i < q.len() implies (#[trigger] q[i]) == d || s.contains(q[i]) by {
            if i < s.len() {
                assert(s[i] == q[i]);
            }
        }
        if by_age(s) {
            assert forall|i: int, j: int| 0 <= i < j < q.len() implies (#[trigger] q[j]).1 <= (
            #[trigger] q[i]).1 by {
                if j < s.len() {
                    assert(q[i] == s[i] && q[j] == s[j]);
                } else if i < s.len() - 1 {
                    assert(s[s.len() - 1].1 <= s[i].1);
                }
            }
        }
    }
}

/// No row stands behind an older one.
pub open spec fn by_age(s: Seq<(Seq<char>, i64)>) -> bool {
    forall|i: int, j: int| 0 <= i < j < s.len() ==> (#[trigger] s[j]).1 <= (#[trigger] s[i]).1
}

proof fn lemma_newest_first(s: Seq<(Seq<char>, i64)>)
    ensures
        newest_first(s).to_multiset() == s.to_multiset(),
        newest_first(s).len() == s.len(),
        by_age(newest_first(s)),
    decreases s.len(),
{
    broadcast use vstd::seq_lib::group_to_multiset_ensures;
    if s.len() > 0 {
        lemma_newest_first(s.drop_last());
        lemma_dated_insert(newest_first(s.drop_last()), s.last());
        assert(s.drop_last().push(s.last()) =~= s);
    }
}

proof fn lemma_newest_leads(s: Seq<(Seq<char>, i64)>, d: (Seq<char>, i64))
    requires
        forall|i: int| 0 <= i < s.len() ==> (#[trigger] s[i]).1 < d.1,
    ensures
        dated_insert(s, d)[0] == d,
    decreases s.len(),
{
    if s.len() > 0 {
        assert(s[s.len() - 1].1 < d.1);
        let rest = s.drop_last();
        assert forall|i: int| 0 <= i < rest.len() implies (#[trigger] rest[i]).1 < d.1 by {
            assert(s[i].1 < d.1);
        }
        lemma_newest_leads(rest, d);
        lemma_dated_insert(rest, d);
    }
}

/// Of the recent notes at most `keep` stay, newest first; one that is opened
/// after all others leads.
pub proof fn law_recents_are_capped_and_ordered(
    list: Seq<(Seq<char>, i64)>,
    path: Seq<char>,
    now_ms: i64,
    keep: i64,
)
    requires
        keep > 0,
    ensures
        recents_after(list, path, now_ms, keep).len() <= keep,
        by_age(recents_after(list, path, now_ms, keep)),
        (forall|i: int| 0 <= i < list.len() ==> (#[trigger] list[i]).1 < now_ms)
            ==> recents_after(list, path, now_ms, keep)[0] == (path, now_ms),
{
    let rest = list.filter(dated_other(path));
    let rows = rest.push((path, now_ms));
    let all = newest_first(rows);
    lemma_newest_first(rows);
    let cut = recents_after(list, path, now_ms, keep);
    assert forall|i: int, j: int| 0 <= i < j < cut.len() implies (#[trigger] cut[j]).1 <= (#[trigger] cut[i]).1 by {
        assert(all[j].1 <= all[i].1);
    }
    if forall|i: int| 0 <= i < list.len() ==> (#[trigger] list[i]).1 < now_ms {
        assert(rows.drop_last() =~= rest);
        lemma_newest_first(rest);
        let sorted = newest_first(rest);
        assert forall|i: int| 0 <= i < sorted.len() implies (#[trigger] sorted[i]).1 < now_ms by {
            broadcast use vstd::seq_lib::group_to_multiset_ensures;
            assert(sorted.contains(sorted[i]));
            assert(sorted.to_multiset().count(sorted[i]) > 0);
            assert(rest.to_multiset().count(sorted[i]) > 0);
            assert(rest.contains(sorted[i]));
            list.lemma_filter_contains_rev(dated_other(path), sorted[i]);
            let k = choose|k: int| 0 <= k < list.len() && list[k] == sorted[i];
            assert(list[k].1 < now_ms);
        }
        lemma_newest_leads(sorted, (path, now_ms));
        assert(all[0] == (path, now_ms));
    }
}

/// The favourites after one was toggled.
pub open spec fn toggled(list: Seq<(Seq<char>, i64)>, path: Seq<char>, now_ms: i64) -> Seq<(Seq<char>, i64)> {
    if lists_path(list, path) {
        list.filter(dated_other(path))
    } else {
        list.push((path, now_ms))
    }
}

/// Whether a list has a row of the path.
pub open spec fn lists_path(list: Seq<(Seq<char>, i64)>, path: Seq<char>) -> bool {
    exists|i: int| 0 <= i < list.len() && (#[trigger] list[i]).0 == path
}

/// Makes a note a favourite, or takes it out where it is one; returns whether
/// it is one then.
pub fn favorite_toggle(list: &mut Vec<(String, i64)>, path: &str, now_ms: i64) -> (r: bool)
    ensures
        dated_views(final(list)@) == toggled(dated_views(old(list)@), path@, now_ms),
        r == !lists_path(dated_views(old(list)@), path@),
{
    let ghost all = dated_views(list@);
    let out = without_path(list, path);
    if out.len() < list.len() {
        proof {
            if !lists_path(all, path@) {
                lemma_filter_all(all, dated_other(path@));
            }
        }
        *list = out;
        return false;
    }
    proof {
        if lists_path(all, path@) {
            let i = choose|i: int| 0 <= i < all.len() && (#[trigger] all[i]).0 == path@;
            lemma_filter_drops(all, dated_other(path@), i);
        }
    }
    list.push((path.to_owned(), now_ms));
    assert(dated_views(list@) =~= all.push((path@, now_ms)));
    true
}

proof fn lemma_filter_all(s: Seq<(Seq<char>, i64)>, f: spec_fn((Seq<char>, i64)) -> bool)
    requires
        forall|i: int| 0 <= i < s.len() ==> f(#[trigger] s[i]),
    ensures
        s.filter(f) == s,
    decreases s.len(),
{
    reveal(Seq::filter);
    if s.len() > 0 {
        lemma_filter_all(s.drop_last(), f);
        assert(f(s[s.len() - 1]));
        assert(s.drop_last().push(s.last()) =~= s);
    }
}

proof fn lemma_filter_drops(s: Seq<(Seq<char>, i64)>, f: spec_fn((Seq<char>, i64)) -> bool, i: int)
    requires
        0 <= i < s.len(),
        !f(s[i]),
    ensures
        s.filter(f).len() < s.len(),
    decreases s.len(),
{
    reveal(Seq::filter);
    s.drop_last().lemma_filter_len(f);
    if i < s.len() - 1 {
        lemma_filter_drops(s.drop_last(), f, i);
    }
}

/// Each toggle turns whether a note is a favourite, and leaves the other rows
/// alone. Toggling twice what was no favourite leaves the list as it was.
pub proof fn law_toggling_twice_restores(list: Seq<(Seq<char>, i64)>, path: Seq<char>, a: i64, b: i64)
    ensures
        lists_path(toggled(list, path, a), path) == !lists_path(list, path),
        toggled(list, path, a).filter(dated_other(path)) == list.filter(dated_other(path)),
        !lists_path(list, path) ==> toggled(toggled(list, path, a), path, b) == list,
{
    let other = dated_other(path);
    let once = toggled(list, path, a);
    if lists_path(list, path) {
        if lists_path(once, path) {
            let k = choose|k: int| 0 <= k < once.len() && (#[trigger] once[k]).0 == path;
            list.lemma_filter_pred(other, k);
        }
        assert forall|i: int| 0 <= i < once.len() implies other(#[trigger] once[i]) by {
            list.lemma_filter_pred(other, i);
        }
        lemma_filter_all(once, other);
    } else {
        assert(once[list.len() as int].0 == path);
        lemma_filter_all(list, other);
        list.lemma_filter_push((path, a), other);
    }
}

/// A path with the title to show for it: that of its note, else the path.
pub open spec fn titled(titles: Map<Seq<char>, Seq<char>>) -> spec_fn((Seq<char>, i64)) -> (Seq<char>, Seq<char>) {
    |t: (Seq<char>, i64)|
        (
            t.0,
            if titles.dom().contains(t.0) {
                titles[t.0]
            } else {
                t.0
            },
        )
}

/// How many rows a limit allows of a list; a negative one allows all.
pub open spec fn limited(len: nat, limit: i64) -> int {
    if limit < 0 {
        len as int
    } else {
        smaller(limit as int, len as int)
    }
}

/// The newest rows of a list as they are shown, newest first.
pub open spec fn shown_rows(
    list: Seq<(Seq<char>, i64)>,
    titles: Map<Seq<char>, Seq<char>>,
    limit: i64,
) -> Seq<(Seq<char>, Seq<char>)> {
    let all = newest_first(list);
    all.take(limited(all.len(), limit)).map_values(titled(titles))
}

/// The notes that were opened last, newest first, each with the title to show.
/// `titles` has the titles of the notes by their paths; a negative limit allows
/// all.
pub fn list_recents(list: &Vec<(String, i64)>, titles: &StrMap<String>, limit: i64) -> (r: Vec<
    (String, String),
>)
    requires
        titles.wf(),
    ensures
        text::views(r@) == shown_rows(dated_views(list@), titles@, limit),
{
    let sorted = sort_dated(list);
    let ghost all = dated_views(sorted@);
    let ghost f = titled(titles@);
    let n: usize = if limit < 0 || sorted.len() as u64 <= limit as u64 {
        sorted.len()
    } else {
        limit as usize
    };
    let mut out: Vec<(String, String)> = Vec::new();
    let mut i: usize = 0;
    assert(text::views(out@) =~= all.take(0).map_values(f));
    while i < n
        invariant
            i <= n <= sorted.len(),
            titles.wf(),
            all == dated_views(sorted@),
            f == titled(titles@),
            text::views(out@) == all.take(i as int).map_values(f),
        decreases n - i,
    {
        broadcast use text::lemma_views_push;
        assert(all[i as int] == (sorted@[i as int].0@, sorted@[i as int].1));
        assert(all.take(i + 1).map_values(f) =~= all.take(i as int).map_values(f).push(
            f(all[i as int]),
        ));
        let path = &sorted[i].0;
        let title: String = match titles.get(path.as_str()) {
            Some(t) => t.clone(),
            None => path.clone(),
        };
        out.push((path.clone(), title));
        i = i + 1;
    }
    out
}

/// The favourites, the one that was added last first, each with the title to
/// show.
pub fn list_favorites(list: &Vec<(String, i64)>, titles: &StrMap<String>) -> (r: Vec<(String, String)>)
    requires
        titles.wf(),
    ensures
        text::views(r@) == shown_rows(dated_views(list@), titles@, -1i64),
{
    list_recents(list, titles, -1)
}

// ---------- what searches and lists come to ----------

/// A search asks for what was typed, taken literally, anywhere in a text, and
/// for no more rows than its limit; each row becomes a hit, in the order of the
/// rows. An empty search finds nothing, and a failure is handed on.
pub proof fn law_search_asks_for_what_was_typed<S: Fn(&String, i64) -> Result<Vec<(String, String, String)>, String>>(
    query: &str,
    limit: i64,
    select: S,
    r: Result<Vec<SearchHit>, String>,
)
    requires
        call_ensures(search::<S>, (query, limit, select), r),
    ensures
        text::trimmed(query@).len() == 0 ==> r is Ok && r->Ok_0@.len() == 0,
        text::trimmed(query@).len() > 0 ==> exists|p: String, rows: Result<Vec<(String, String, String)>, String>|
            {
                &&& #[trigger] call_ensures(select, (&p, limit), rows)
                &&& looks_for(p@, text::trimmed(query@))
                &&& match rows {
                    Err(e) => r is Err && r->Err_0@ == e@,
                    Ok(list) => r is Ok && r->Ok_0@.len() == list@.len() && forall|i: int|
                        0 <= i < list@.len() ==> hit_shows(
                            (#[trigger] list@[i]).0@,
                            list@[i].1@,
                            list@[i].2@,
                            text::trimmed(query@),
                            r->Ok_0@[i]@,
                        ),
                }
            },
{
    reveal_strlit("%");
    assert("%"@ =~= seq!['%']);
    let q = text::trimmed(query@);
    if q.len() > 0 {
        law_searched_text_is_literal(q);
        let (p, rows) = choose|p: String, rows: Result<Vec<(String, String, String)>, String>|
            {
                &&& #[trigger] call_ensures(select, (&p, limit), rows)
                &&& p@ == pattern_of(q)
                &&& hits_view(r) == match rows {
                    Ok(list) => Ok(
                        row_views(list@).map_values(|row: (Seq<char>, Seq<char>, Seq<char>)| hit_for(row, q)),
                    ),
                    Err(e) => Err(e@),
                }
            };
        assert(p@.subrange(1, p@.len() - 1) =~= escaped(q));
        match rows {
            Ok(list) => {
                let hits = text::views(r->Ok_0@);
                assert(hits.len() == list@.len());
                assert forall|i: int| 0 <= i < list@.len() implies hit_shows(
                    (#[trigger] list@[i]).0@,
                    list@[i].1@,
                    list@[i].2@,
                    q,
                    r->Ok_0@[i]@,
                ) by {
                    assert(hits[i] == r->Ok_0@[i]@);
                    assert(hits[i] == hit_for(row_views(list@)[i], q));
                    lemma_hit(list@[i].0@, list@[i].1@, list@[i].2@, q);
                }
            },
            Err(e) => {},
        }
    }
}

/// Whether a pattern finds a text anywhere: it is the text, with what has a
/// meaning in patterns escaped, between two marks for anything.
pub open spec fn looks_for(pattern: Seq<char>, q: Seq<char>) -> bool {
    &&& pattern.len() >= 2
    &&& pattern[0] == '%'
    &&& pattern.last() == '%'
    &&& all_literal(pattern.subrange(1, pattern.len() - 1))
    &&& unescaped(pattern.subrange(1, pattern.len() - 1)) == q
}

/// Whether a hit shows a row: its path, its title, and the text around the first
/// place where it holds `q`, without regard to case, or its beginning.
pub open spec fn hit_shows(
    path: Seq<char>,
    title: Seq<char>,
    body: Seq<char>,
    q: Seq<char>,
    hit: SearchHitView,
) -> bool {
    &&& hit.path == path
    &&& hit.title == title
    &&& !text::has_part(text::lowercase(body), text::lowercase(q)) ==> hit.snippet == (if body.len() <= 60 {
        body
    } else {
        body.take(60)
    })
    &&& text::has_part(text::lowercase(body), text::lowercase(q)) ==> Some(hit.snippet) == snippet_of(
        body,
        text::lowercase(body),
        text::lowercase(q),
    )
}

proof fn lemma_hit(path: Seq<char>, title: Seq<char>, body: Seq<char>, q: Seq<char>)
    ensures
        hit_shows(path, title, body, q, hit_for((path, title, body), q)),
{
    assert(body.take(body.len() as int) =~= body);
}

/// Around a hit at most 40 characters are shown on each side, the hit itself
/// whole; what is cut off is marked, and new lines become spaces. It is the
/// first place that counts. Where the text is not found there is nothing to
/// show.
pub proof fn law_snippet_shows_the_first_hit(
    before: Seq<char>,
    hit: Seq<char>,
    after: Seq<char>,
    lower_body: Seq<char>,
    lower_q: Seq<char>,
)
    requires
        hit.len() == lower_q.len(),
        text::stands_at(lower_body, lower_q, before.len() as int),
        forall|i: int| 0 <= i < before.len() ==> !(#[trigger] text::stands_at(lower_body, lower_q, i)),
    ensures
        ({
            let head = if before.len() > 40 {
                "…"@ + before.skip(before.len() - 40)
            } else {
                before
            };
            let tail = if after.len() > 40 {
                after.take(40) + "…"@
            } else {
                after
            };
            snippet_of(before + hit + after, lower_body, lower_q) == Some(
                text::replaced(head + hit + tail, '\n', ' '),
            )
        }),
{
    let body = before + hit + after;
    let n = before.len() as int;
    lemma_part_index(lower_body, lower_q);
    lemma_part_index_first(lower_body, lower_q);
    assert(text::has_part(lower_body, lower_q));
    assert(fs_ops::part_index(lower_body, lower_q) == n);
    let head = if before.len() > 40 {
        "…"@ + before.skip(n - 40)
    } else {
        before
    };
    let tail = if after.len() > 40 {
        after.take(40) + "…"@
    } else {
        after
    };
    let start = if n <= 40 {
        0
    } else {
        n - 40
    };
    let end = smaller(n + lower_q.len() + 40, body.len() as int);
    let mark = if start > 0 {
        "…"@
    } else {
        Seq::empty()
    };
    let close = if end < body.len() {
        "…"@
    } else {
        Seq::empty()
    };
    assert(mark + body.subrange(start, end) + close =~= head + hit + tail);
}

proof fn lemma_part_index_first(s: Seq<char>, p: Seq<char>)
    ensures
        forall|i: int| 0 <= i < fs_ops::part_index(s, p) ==> !(#[trigger] text::stands_at(s, p, i)),
    decreases s.len(),
{
    if s.len() == 0 || text::starts_with(s, p) {
    } else {
        let t = s.drop_first();
        lemma_part_index_first(t, p);
        assert forall|i: int| 0 <= i < fs_ops::part_index(s, p) implies !(#[trigger] text::stands_at(s, p, i)) by {
            if text::stands_at(s, p, i) {
                if i == 0 {
                    assert(s.subrange(0, p.len() as int) =~= s.take(p.len() as int));
                } else {
                    assert(t.subrange(i - 1, i - 1 + p.len()) =~= s.subrange(i, i + p.len()));
                    assert(text::stands_at(t, p, i - 1));
                }
            }
        }
    }
}

/// A text that is not found has no snippet.
pub proof fn law_no_hit_no_snippet(body: Seq<char>, lower_body: Seq<char>, lower_q: Seq<char>)
    ensures
        snippet_of(body, lower_body, lower_q) is Some <==> exists|a: Seq<char>, b: Seq<char>|
            lower_body == #[trigger] (a + lower_q + b),
{
    text::law_parts_of_a_text(lower_body, lower_q);
}

/// With an entry go the rows of the entry itself and of all below it, and no
/// others: what only starts with the same letters stays. The rows that stay keep
/// their order.
pub proof fn law_removing_takes_what_lies_below(
    paths: &Vec<String>,
    prefix: &str,
    left: Vec<String>,
    taken: Vec<String>,
    p: Seq<char>,
)
    requires
        call_ensures(remove_prefix, (paths, prefix), left),
        call_ensures(list_prefix_paths, (paths, prefix), taken),
    ensures
        text::views(left@).contains(p) <==> text::views(paths@).contains(p) && p != prefix@ && !(exists|t: Seq<
            char,
        >|
            p == #[trigger] (prefix@.push('/') + t)),
        text::views(taken@).contains(p) <==> text::views(paths@).contains(p) && (p == prefix@ || exists|t: Seq<
            char,
        >|
            p == #[trigger] (prefix@.push('/') + t)),
        left@.len() + taken@.len() == paths@.len(),
{
    reveal_strlit("/");
    assert(prefix@ + "/"@ =~= prefix@.push('/'));
    text::law_parts_of_a_text(p, prefix@.push('/'));
    let all = text::views(paths@);
    lemma_filter_contains(all, stands_outside(prefix@), p);
    lemma_filter_contains(all, stands_within(prefix@), p);
    lemma_filter_both(all, stands_outside(prefix@), stands_within(prefix@));
    assert(text::views(left@).len() == left@.len() && text::views(taken@).len() == taken@.len());
}

proof fn lemma_filter_contains(s: Seq<Seq<char>>, f: spec_fn(Seq<char>) -> bool, p: Seq<char>)
    ensures
        s.filter(f).contains(p) <==> s.contains(p) && f(p),
{
    if s.contains(p) && f(p) {
        let i = choose|i: int| 0 <= i < s.len() && s[i] == p;
        s.lemma_filter_contains(f, i);
    }
    if s.filter(f).contains(p) {
        let k = choose|k: int| 0 <= k < s.filter(f).len() && s.filter(f)[k] == p;
        s.lemma_filter_pred(f, k);
        s.lemma_filter_contains_rev(f, p);
    }
}

proof fn lemma_filter_both(s: Seq<Seq<char>>, f: spec_fn(Seq<char>) -> bool, g: spec_fn(Seq<char>) -> bool)
    requires
        forall|x: Seq<char>| #[trigger] f(x) == !g(x),
    ensures
        s.filter(f).len() + s.filter(g).len() == s.len(),
    decreases s.len(),
{
    reveal(Seq::filter);
    if s.len() > 0 {
        lemma_filter_both(s.drop_last(), f, g);
        assert(f(s.last()) == !g(s.last()));
    }
}

/// The note that was opened is recent, as of now and once. Of the others none
/// is changed, none is added, and those that have to go are the oldest.
pub proof fn law_oldest_recents_go(
    list: Seq<(Seq<char>, i64)>,
    path: Seq<char>,
    now_ms: i64,
    keep: i64,
    x: (Seq<char>, i64),
    y: (Seq<char>, i64),
)
    requires
        keep > 0,
    ensures
        ({
            let after = recents_after(list, path, now_ms, keep);
            let others = list.filter(|t: (Seq<char>, i64)| t.0 != path);
            &&& after.len() == (if others.len() + 1 <= keep {
                others.len() + 1
            } else {
                keep as nat
            })
            &&& after.contains(x) ==> x == (path, now_ms) || (list.contains(x) && x.0 != path)
            &&& after.contains(x) && !after.contains(y) && ((list.contains(y) && y.0 != path) || y == (path, now_ms))
                ==> y.1 <= x.1
        }),
{
    broadcast use vstd::seq_lib::group_to_multiset_ensures;

    let f = |t: (Seq<char>, i64)| t.0 != path;
    let others = list.filter(f);
    assert(dated_other(path) == f);
    let rows = others.push((path, now_ms));
    let all = newest_first(rows);
    lemma_newest_first(rows);
    let after = recents_after(list, path, now_ms, keep);
    let n = kept_of(all.len(), keep);
    if after.contains(x) {
        let k = choose|k: int| 0 <= k < after.len() && after[k] == x;
        assert(all[k] == x);
        assert(all.contains(x));
        assert(all.to_multiset().count(x) > 0);
        assert(rows.to_multiset().count(x) > 0);
        assert(rows.contains(x));
        let m = choose|m: int| 0 <= m < rows.len() && rows[m] == x;
        if m < others.len() {
            assert(others[m] == x);
            list.lemma_filter_pred(f, m);
            list.lemma_filter_contains_rev(f, x);
        }
        if !after.contains(y) && ((list.contains(y) && y.0 != path) || y == (path, now_ms)) {
            if list.contains(y) && y.0 != path {
                let i = choose|i: int| 0 <= i < list.len() && list[i] == y;
                list.lemma_filter_contains(f, i);
                let j = choose|j: int| 0 <= j < others.len() && others[j] == y;
                assert(rows[j] == y);
            } else {
                assert(rows[others.len() as int] == y);
            }
            assert(rows.contains(y));
            assert(rows.to_multiset().count(y) > 0);
            assert(all.to_multiset().count(y) > 0);
            assert(all.contains(y));
            let j = choose|j: int| 0 <= j < all.len() && all[j] == y;
            if j < n {
                assert(after[j] == y);
            }
            assert(k < n <= j);
            assert(all[j].1 <= all[k].1);
        }
    }
}

/// A note that becomes a favourite is listed once, as of now; one that was a
/// favourite is listed no more.
pub proof fn law_toggled_note_is_listed_as_of_now(list: Seq<(Seq<char>, i64)>, path: Seq<char>, now_ms: i64)
    ensures
        (exists|i: int| 0 <= i < list.len() && (#[trigger] list[i]).0 == path) ==> forall|i: int|
            0 <= i < toggled(list, path, now_ms).len() ==> (#[trigger] toggled(list, path, now_ms)[i]).0 != path,
        !(exists|i: int| 0 <= i < list.len() && (#[trigger] list[i]).0 == path) ==> toggled(list, path, now_ms)
            == list.push((path, now_ms)),
{
    if exists|i: int| 0 <= i < list.len() && (#[trigger] list[i]).0 == path {
        let after = toggled(list, path, now_ms);
        assert forall|i: int| 0 <= i < after.len() implies (#[trigger] after[i]).0 != path by {
            list.lemma_filter_pred(dated_other(path), i);
        }
    }
}

/// What is shown of dated notes is the newest of them, in order: as many as the
/// limit allows, all where it is negative; each with its title, or its path
/// where it has none.
pub proof fn law_newest_notes_are_shown(
    list: Seq<(Seq<char>, i64)>,
    titles: Map<Seq<char>, Seq<char>>,
    limit: i64,
)
    ensures
        exists|all: Seq<(Seq<char>, i64)>|
            {
                &&& #[trigger] all.to_multiset() == list.to_multiset()
                &&& forall|i: int, j: int| 0 <= i < j < all.len() ==> (#[trigger] all[j]).1 <= (#[trigger] all[i]).1
                &&& shown_rows(list, titles, limit).len() == (if limit < 0 || list.len() <= limit {
                    list.len()
                } else {
                    limit as nat
                })
                &&& forall|i: int|
                    0 <= i < shown_rows(list, titles, limit).len() ==> (#[trigger] shown_rows(list, titles, limit)[i])
                        == (all[i].0, if titles.dom().contains(all[i].0) {
                        titles[all[i].0]
                    } else {
                        all[i].0
                    })
            },
{
    lemma_newest_first(list);
    let all = newest_first(list);
    assert(all.to_multiset() == list.to_multiset());
}

/// Where the hit lies behind the end of the text, as may be where lower case is
/// longer, the end of the text is shown.
pub proof fn law_snippet_behind_the_end(body: Seq<char>, lower_body: Seq<char>, lower_q: Seq<char>, at: int)
    requires
        at >= body.len(),
        text::stands_at(lower_body, lower_q, at),
        forall|i: int| 0 <= i < at ==> !(#[trigger] text::stands_at(lower_body, lower_q, i)),
    ensures
        snippet_of(body, lower_body, lower_q) == Some(
            text::replaced(
                if body.len() > 40 {
                    "…"@ + body.skip(body.len() - 40)
                } else {
                    body
                },
                '\n',
                ' ',
            ),
        ),
{
    lemma_part_index(lower_body, lower_q);
    lemma_part_index_first(lower_body, lower_q);
    assert(text::has_part(lower_body, lower_q));
    assert(fs_ops::part_index(lower_body, lower_q) == at);
    let n = body.len() as int;
    let start = if n <= 40 {
        0
    } else {
        n - 40
    };
    let mark = if start > 0 {
        "…"@
    } else {
        Seq::empty()
    };
    let none = Seq::<char>::empty();
    let shown = if body.len() > 40 {
        "…"@ + body.skip(body.len() - 40)
    } else {
        body
    };
    assert(mark + body.subrange(start, n) + none =~= shown);
}

/// Where no recent note is to be kept, none is.
pub proof fn law_no_recents_are_kept_where_none_may(list: Seq<(Seq<char>, i64)>, path: Seq<char>, now_ms: i64, keep: i64)
    requires
        keep <= 0,
    ensures
        recents_after(list, path, now_ms, keep).len() == 0,
{
}

} // verus!
