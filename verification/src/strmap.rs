//! A map keyed by strings, kept in the order of its keys.
use vstd::prelude::*;

use crate::text;
use crate::text::{same, str_lt};

verus! {

/// A map from strings to values. The entries lie in ascending order of their
/// keys, and no key occurs twice.
pub struct StrMap<V> {
    entries: Vec<(String, V)>,
}

/// Whether the keys ascend strictly.
pub open spec fn ascending<V>(s: Seq<(String, V)>) -> bool {
    forall|i: int, j: int| 0 <= i < j < s.len() ==> text::lex_lt(#[trigger] s[i].0@, #[trigger] s[j].0@)
}

/// The map that a sequence of entries stands for; a later entry replaces an
/// earlier one with the same key.
pub open spec fn entries_map<V: View>(s: Seq<(String, V)>) -> Map<Seq<char>, V::V>
    decreases s.len(),
{
    if s.len() == 0 {
        Map::empty()
    } else {
        entries_map(s.drop_last()).insert(s.last().0@, s.last().1@)
    }
}

/// In ascending entries each entry is found under its key, and nothing else is.
proof fn lemma_entries_map<V: View>(s: Seq<(String, V)>)
    requires
        ascending(s),
    ensures
        forall|i: int|
            0 <= i < s.len() ==> entries_map(s).dom().contains(#[trigger] s[i].0@) && entries_map(
                s,
            )[s[i].0@] == s[i].1@,
        forall|k: Seq<char>|
            #[trigger] entries_map(s).dom().contains(k) ==> exists|i: int|
                0 <= i < s.len() && (#[trigger] s[i]).0@ == k,
    decreases s.len(),
{
    if s.len() > 0 {
        let t = s.drop_last();
        lemma_entries_map(t);
        assert forall|i: int| 0 <= i < s.len() implies entries_map(s).dom().contains(
            #[trigger] s[i].0@,
        ) && entries_map(s)[s[i].0@] == s[i].1@ by {
            if i < s.len() - 1 {
                assert(t[i] == s[i]);
                assert(text::lex_lt(s[i].0@, s[s.len() - 1].0@));
                text::lemma_lex_irreflexive(s[i].0@);
            }
        }
        assert forall|k: Seq<char>| #[trigger] entries_map(s).dom().contains(k) implies exists|i: int|
            0 <= i < s.len() && (#[trigger] s[i]).0@ == k by {
            if k == s.last().0@ {
                assert(s[s.len() - 1].0@ == k);
            } else {
                assert(entries_map(t).dom().contains(k));
                let i = choose|i: int| 0 <= i < t.len() && (#[trigger] t[i]).0@ == k;
                assert(s[i].0@ == k);
            }
        }
    }
}

impl<V: View> View for StrMap<V> {
    type V = Map<Seq<char>, V::V>;

    closed spec fn view(&self) -> Map<Seq<char>, V::V> {
        entries_map(self.entries@)
    }
}

impl<V: View> StrMap<V> {
    /// The keys ascend strictly.
    pub closed spec fn wf(self) -> bool {
        ascending(self.entries@)
    }

    /// The entries in the order of their keys.
    pub closed spec fn spec_entries(self) -> Seq<(String, V)> {
        self.entries@
    }

    /// The keys in ascending order.
    pub open spec fn keys(self) -> Seq<Seq<char>> {
        self.spec_entries().map_values(|e: (String, V)| e.0@)
    }

    /// The keys ascend strictly, and they are the keys of the map.
    pub proof fn lemma_keys(self)
        requires
            self.wf(),
        ensures
            forall|i: int, j: int|
                0 <= i < j < self.keys().len() ==> text::lex_lt(
                    #[trigger] self.keys()[i],
                    #[trigger] self.keys()[j],
                ),
            self.keys().no_duplicates(),
            forall|k: Seq<char>| #[trigger] self@.dom().contains(k) <==> self.keys().contains(k),
    {
        let s = self.entries@;
        lemma_entries_map(s);
        assert forall|i: int, j: int| 0 <= i < j < self.keys().len() implies text::lex_lt(
            #[trigger] self.keys()[i],
            #[trigger] self.keys()[j],
        ) by {
            assert(text::lex_lt(s[i].0@, s[j].0@));
        }
        assert forall|i: int, j: int| 0 <= i < self.keys().len() && 0 <= j < self.keys().len() && i
            != j implies self.keys()[i] != self.keys()[j] by {
            text::lemma_lex_irreflexive(self.keys()[i]);
            if i < j {
                assert(text::lex_lt(s[i].0@, s[j].0@));
            } else {
                assert(text::lex_lt(s[j].0@, s[i].0@));
            }
        }
        assert forall|k: Seq<char>| #[trigger]
            self@.dom().contains(k) <==> self.keys().contains(k) by {
            if self@.dom().contains(k) {
                let i = choose|i: int| 0 <= i < s.len() && (#[trigger] s[i]).0@ == k;
                assert(self.keys()[i] == k);
            }
            if self.keys().contains(k) {
                let i = choose|i: int| 0 <= i < self.keys().len() && self.keys()[i] == k;
                assert(s[i].0@ == k);
            }
        }
    }

    /// A map without entries.
    pub fn new() -> (r: Self)
        ensures
            r.wf(),
            r@ == Map::<Seq<char>, V::V>::empty(),
            r.keys() == Seq::<Seq<char>>::empty(),
    {
        let r = StrMap { entries: Vec::new() };
        assert(r.keys() =~= Seq::<Seq<char>>::empty());
        r
    }

    /// The number of entries.
    pub fn len(&self) -> (r: usize)
        ensures
            r == self.keys().len(),
    {
        self.entries.len()
    }

    /// The key at position `i` in the order of the keys.
    pub fn key_at(&self, i: usize) -> (r: &String)
        requires
            i < self.keys().len(),
        ensures
            r@ == self.keys()[i as int],
    {
        &self.entries[i].0
    }

    /// The value at position `i` in the order of the keys.
    pub fn value_at(&self, i: usize) -> (r: &V)
        requires
            self.wf(),
            i < self.keys().len(),
        ensures
            self@.dom().contains(self.keys()[i as int]),
            r@ == self@[self.keys()[i as int]],
    {
        proof {
            lemma_entries_map(self.entries@);
            assert(self.keys()[i as int] == self.entries@[i as int].0@);
        }
        &self.entries[i].1
    }

    /// The position of the first key that does not come before `k`.
    fn position(&self, k: &str) -> (r: usize)
        requires
            self.wf(),
        ensures
            r <= self.entries@.len(),
            forall|i: int| 0 <= i < r ==> text::lex_lt(#[trigger] self.entries@[i].0@, k@),
            forall|i: int| r <= i < self.entries@.len() ==> !text::lex_lt(#[trigger] self.entries@[i].0@, k@),
    {
        let mut lo: usize = 0;
        let mut hi: usize = self.entries.len();
        while lo < hi
            invariant
                self.wf(),
                lo <= hi <= self.entries@.len(),
                forall|i: int| 0 <= i < lo ==> text::lex_lt(#[trigger] self.entries@[i].0@, k@),
                forall|i: int|
                    hi <= i < self.entries@.len() ==> !text::lex_lt(#[trigger] self.entries@[i].0@, k@),
            decreases hi - lo,
        {
            let mid: usize = lo + (hi - lo) / 2;
            let ghost s = self.entries@;
            if str_lt(self.entries[mid].0.as_str(), k) {
                proof {
                    assert forall|i: int| 0 <= i < mid + 1 implies text::lex_lt(#[trigger] s[i].0@, k@) by {
                        if i < mid {
                            assert(text::lex_lt(s[i].0@, s[mid as int].0@));
                            text::lemma_lex_transitive(s[i].0@, s[mid as int].0@, k@);
                        }
                    }
                }
                lo = mid + 1;
            } else {
                proof {
                    assert forall|i: int| mid <= i < s.len() implies !text::lex_lt(#[trigger] s[i].0@, k@) by {
                        if i > mid && text::lex_lt(s[i].0@, k@) {
                            assert(text::lex_lt(s[mid as int].0@, s[i].0@));
                            text::lemma_lex_transitive(s[mid as int].0@, s[i].0@, k@);
                        }
                    }
                }
                hi = mid;
            }
        }
        lo
    }

    /// The value under `k`, if there is one.
    pub fn get(&self, k: &str) -> (r: Option<&V>)
        requires
            self.wf(),
        ensures
            match r {
                Some(v) => self@.dom().contains(k@) && v@ == self@[k@],
                None => !self@.dom().contains(k@),
            },
    {
        let i = self.position(k);
        let ghost s = self.entries@;
        proof {
            lemma_entries_map(s);
        }
        if i < self.entries.len() && same(self.entries[i].0.as_str(), k) {
            assert(s[i as int].0@ == k@);
            return Some(&self.entries[i].1);
        }
        proof {
            assert forall|j: int| 0 <= j < s.len() implies (#[trigger] s[j]).0@ != k@ by {
                text::lemma_lex_irreflexive(k@);
                if j > i && s[j].0@ == k@ {
                    assert(text::lex_lt(s[i as int].0@, s[j].0@));
                }
            }
        }
        None
    }

    /// Whether there is a value under `k`.
    pub fn contains_key(&self, k: &str) -> (r: bool)
        requires
            self.wf(),
        ensures
            r == self@.dom().contains(k@),
    {
        self.get(k).is_some()
    }

    /// Puts `v` under `k`; what was there is replaced.
    pub fn insert(&mut self, k: String, v: V)
        requires
            old(self).wf(),
        ensures
            final(self).wf(),
            final(self)@ == old(self)@.insert(k@, v@),
    {
        let i = self.position(k.as_str());
        let ghost s = self.entries@;
        proof {
            lemma_entries_map(s);
        }
        if i < self.entries.len() && same(self.entries[i].0.as_str(), k.as_str()) {
            self.entries[i].1 = v;
            let ghost t = self.entries@;
            proof {
                assert(t =~= s.update(i as int, (s[i as int].0, v)));
                assert forall|a: int, b: int| 0 <= a < b < t.len() implies text::lex_lt(
                    #[trigger] t[a].0@,
                    #[trigger] t[b].0@,
                ) by {
                    assert(text::lex_lt(s[a].0@, s[b].0@));
                }
                lemma_same_map(s, t, k@, v@, i as int);
            }
        } else {
            self.entries.insert(i, (k, v));
            let ghost t = self.entries@;
            proof {
                assert(t =~= s.insert(i as int, (k, v)));
                assert forall|j: int| i <= j < s.len() implies text::lex_lt(k@, #[trigger] s[j].0@) by {
                    if s[j].0@ == k@ {
                        if j > i {
                            assert(text::lex_lt(s[i as int].0@, s[j].0@));
                        }
                    } else {
                        text::lemma_lex_total(k@, s[j].0@);
                    }
                }
                assert forall|a: int, b: int| 0 <= a < b < t.len() implies text::lex_lt(
                    #[trigger] t[a].0@,
                    #[trigger] t[b].0@,
                ) by {
                    let a0 = if a < i { a } else { a - 1 };
                    let b0 = if b < i { b } else { b - 1 };
                    if a != i && b != i {
                        assert(text::lex_lt(s[a0].0@, s[b0].0@));
                    } else if a == i {
                        assert(t[b] == s[b0]);
                    } else {
                        assert(t[a] == s[a0]);
                    }
                }
                lemma_inserted_map(s, t, k, v, i as int);
            }
        }
    }

    /// Takes the value under `k` out.
    pub fn remove(&mut self, k: &str)
        requires
            old(self).wf(),
        ensures
            final(self).wf(),
            final(self)@ == old(self)@.remove(k@),
    {
        let i = self.position(k);
        let ghost s = self.entries@;
        proof {
            lemma_entries_map(s);
        }
        if i < self.entries.len() && same(self.entries[i].0.as_str(), k) {
            let _ = self.entries.remove(i);
            let ghost t = self.entries@;
            proof {
                assert(t =~= s.remove(i as int));
                assert forall|a: int, b: int| 0 <= a < b < t.len() implies text::lex_lt(
                    #[trigger] t[a].0@,
                    #[trigger] t[b].0@,
                ) by {
                    let a0 = if a < i { a } else { a + 1 };
                    let b0 = if b < i { b } else { b + 1 };
                    assert(text::lex_lt(s[a0].0@, s[b0].0@));
                }
                lemma_removed_map(s, t, k@, i as int);
            }
        } else {
            proof {
                assert forall|j: int| 0 <= j < s.len() implies (#[trigger] s[j]).0@ != k@ by {
                    text::lemma_lex_irreflexive(k@);
                    if j > i && s[j].0@ == k@ {
                        assert(text::lex_lt(s[i as int].0@, s[j].0@));
                    }
                }
                assert(self@ =~= old(self)@.remove(k@));
            }
        }
    }
}

proof fn lemma_same_map<V: View>(s: Seq<(String, V)>, t: Seq<(String, V)>, k: Seq<char>, v: V::V, i: int)
    requires
        ascending(s),
        ascending(t),
        0 <= i < s.len(),
        t.len() == s.len(),
        forall|j: int| 0 <= j < s.len() ==> (#[trigger] t[j]).0 == s[j].0,
        forall|j: int| 0 <= j < s.len() && j != i ==> (#[trigger] t[j]).1 == s[j].1,
        s[i].0@ == k,
        t[i].1@ == v,
    ensures
        entries_map(t) == entries_map(s).insert(k, v),
{
    lemma_entries_map(s);
    lemma_entries_map(t);
    let m = entries_map(t);
    let n = entries_map(s).insert(k, v);
    assert forall|x: Seq<char>| #[trigger] m.dom().contains(x) <==> n.dom().contains(x) by {
        if m.dom().contains(x) {
            let j = choose|j: int| 0 <= j < t.len() && (#[trigger] t[j]).0@ == x;
            assert(s[j].0@ == x);
        }
        if n.dom().contains(x) && x != k {
            let j = choose|j: int| 0 <= j < s.len() && (#[trigger] s[j]).0@ == x;
            assert(t[j].0@ == x);
        }
        assert(t[i].0@ == k);
    }
    assert forall|x: Seq<char>| #[trigger] m.dom().contains(x) implies m[x] == n[x] by {
        let j = choose|j: int| 0 <= j < t.len() && (#[trigger] t[j]).0@ == x;
        assert(s[j].0@ == x);
        if j != i {
            text::lemma_lex_irreflexive(k);
            if j < i {
                assert(text::lex_lt(s[j].0@, s[i].0@));
            } else {
                assert(text::lex_lt(s[i].0@, s[j].0@));
            }
        }
    }
    assert(m =~= n);
}

proof fn lemma_inserted_map<V: View>(s: Seq<(String, V)>, t: Seq<(String, V)>, k: String, v: V, i: int)
    requires
        ascending(s),
        ascending(t),
        0 <= i <= s.len(),
        t == s.insert(i, (k, v)),
    ensures
        entries_map(t) == entries_map(s).insert(k@, v@),
{
    lemma_entries_map(s);
    lemma_entries_map(t);
    let m = entries_map(t);
    let n = entries_map(s).insert(k@, v@);
    assert(t[i] == (k, v));
    assert forall|j: int| 0 <= j < s.len() implies (#[trigger] s[j]) == t[if j < i {
        j
    } else {
        j + 1
    }] by {}
    assert forall|x: Seq<char>| #[trigger] m.dom().contains(x) <==> n.dom().contains(x) by {
        if m.dom().contains(x) {
            let j = choose|j: int| 0 <= j < t.len() && (#[trigger] t[j]).0@ == x;
            if j < i {
                assert(s[j].0@ == x);
            } else if j > i {
                assert(s[j - 1].0@ == x);
            }
        }
        if n.dom().contains(x) && x != k@ {
            let j = choose|j: int| 0 <= j < s.len() && (#[trigger] s[j]).0@ == x;
            let j1 = if j < i { j } else { j + 1 };
            assert(t[j1].0@ == x);
        }
        assert(m.dom().contains(t[i].0@));
    }
    assert forall|x: Seq<char>| #[trigger] m.dom().contains(x) implies m[x] == n[x] by {
        let j = choose|j: int| 0 <= j < t.len() && (#[trigger] t[j]).0@ == x;
        if j != i {
            text::lemma_lex_irreflexive(k@);
            if j < i {
                assert(text::lex_lt(t[j].0@, t[i].0@));
                assert(s[j].0@ == x);
            } else {
                assert(text::lex_lt(t[i].0@, t[j].0@));
                assert(s[j - 1].0@ == x);
            }
        }
    }
    assert(m =~= n);
}

proof fn lemma_removed_map<V: View>(s: Seq<(String, V)>, t: Seq<(String, V)>, k: Seq<char>, i: int)
    requires
        ascending(s),
        ascending(t),
        0 <= i < s.len(),
        t == s.remove(i),
        s[i].0@ == k,
    ensures
        entries_map(t) == entries_map(s).remove(k),
{
    lemma_entries_map(s);
    lemma_entries_map(t);
    let m = entries_map(t);
    let n = entries_map(s).remove(k);
    text::lemma_lex_irreflexive(k);
    assert forall|j: int| 0 <= j < s.len() && j != i implies (#[trigger] s[j]).0@ != k by {
        if j < i {
            assert(text::lex_lt(s[j].0@, s[i].0@));
        } else {
            assert(text::lex_lt(s[i].0@, s[j].0@));
        }
    }
    assert forall|x: Seq<char>| #[trigger] m.dom().contains(x) <==> n.dom().contains(x) by {
        if m.dom().contains(x) {
            let j = choose|j: int| 0 <= j < t.len() && (#[trigger] t[j]).0@ == x;
            let j0 = if j < i { j } else { j + 1 };
            assert(t[j] == s[j0]);
            assert(entries_map(s).dom().contains(s[j0].0@));
        }
        if n.dom().contains(x) {
            assert(entries_map(s).dom().contains(x));
            let j = choose|j: int| 0 <= j < s.len() && (#[trigger] s[j]).0@ == x;
            let j1 = if j < i { j } else { j - 1 };
            assert(t[j1].0@ == s[j].0@);
        }
    }
    assert forall|x: Seq<char>| #[trigger] m.dom().contains(x) implies m[x] == n[x] by {
        let j = choose|j: int| 0 <= j < t.len() && (#[trigger] t[j]).0@ == x;
        let j0 = if j < i { j } else { j + 1 };
        assert(s[j0].0@ == x);
        assert(t[j] == s[j0]);
    }
    assert(m =~= n);
}

} // verus!
