//! Walks over the tree of a vault: the list that a user sees, the notes to
//! index, the files to sync and the figures of the vault.
use vstd::prelude::*;

use crate::fs_ops;
use crate::fs_ops::{index_row, is_note_file, rel_to_string, title_from_stem};
use crate::fs_ops::{FsError, FsErrorKind, IndexRow, Node, NodeView};
use crate::strmap::StrMap;
use crate::text;
use crate::text::{
    concat3, decimal_i64, decimal_u64, from_utf8_lossy, has_prefix, has_suffix, list_has, same, str_lt,
    to_chars, to_lower,
};

verus! {

/// What an entry of a directory is, links not followed.
#[derive(Debug, Clone, Copy, PartialEq, Eq, Structural)]
pub enum EntryKind {
    Dir,
    File,
    Symlink,
    Other,
    /// The disk did not say.
    Unknown,
}

/// An entry of a directory, with all that lies below it.
pub struct Entry {
    pub name: String,
    pub kind: EntryKind,
    /// The size of a file in bytes, 0 where it could not be read.
    pub len: u64,
    /// The entries of a directory.
    pub children: Vec<Entry>,
}

// ---------- order ----------

/// What entries of one directory are sorted by: directories first, then by
/// name without regard to case.
pub open spec fn sort_key(e: Entry) -> (bool, Seq<char>) {
    (e.kind != EntryKind::Dir && e.kind != EntryKind::Unknown, text::lowercase(e.name@))
}

/// Whether key `a` comes before key `b`.
pub open spec fn key_lt(a: (bool, Seq<char>), b: (bool, Seq<char>)) -> bool {
    (!a.0 && b.0) || (a.0 == b.0 && text::lex_lt(a.1, b.1))
}

/// Where position `n` goes among the positions `s`: behind all whose keys do
/// not come after its own.
pub open spec fn insert_place(entries: Seq<Entry>, s: Seq<int>, n: int) -> int
    decreases s.len(),
{
    if s.len() > 0 && key_lt(sort_key(entries[n]), sort_key(entries[s.last()])) {
        insert_place(entries, s.drop_last(), n)
    } else {
        s.len() as int
    }
}

/// The positions of the first `n` entries in sorted order; entries with equal
/// keys stay in the order of the directory.
pub open spec fn sorted_positions(entries: Seq<Entry>, n: int) -> Seq<int>
    decreases n,
{
    if n <= 0 {
        Seq::empty()
    } else {
        let s = sorted_positions(entries, n - 1);
        s.insert(insert_place(entries, s, n - 1), n - 1)
    }
}

proof fn lemma_insert_place(entries: Seq<Entry>, s: Seq<int>, n: int)
    ensures
        0 <= insert_place(entries, s, n) <= s.len(),
        forall|j: int|
            insert_place(entries, s, n) <= j < s.len() ==> key_lt(
                sort_key(entries[n]),
                sort_key(entries[#[trigger] s[j]]),
            ),
        insert_place(entries, s, n) > 0 ==> !key_lt(
            sort_key(entries[n]),
            sort_key(entries[s[insert_place(entries, s, n) - 1]]),
        ),
    decreases s.len(),
{
    if s.len() > 0 && key_lt(sort_key(entries[n]), sort_key(entries[s.last()])) {
        lemma_insert_place(entries, s.drop_last(), n);
        assert forall|j: int| insert_place(entries, s, n) <= j < s.len() implies key_lt(
            sort_key(entries[n]),
            sort_key(entries[#[trigger] s[j]]),
        ) by {
            if j < s.len() - 1 {
                assert(s.drop_last()[j] == s[j]);
            }
        }
    }
}

pub proof fn lemma_sorted_positions_range(entries: Seq<Entry>, n: int)
    requires
        0 <= n <= entries.len(),
    ensures
        sorted_positions(entries, n).len() == n,
        forall|j: int|
            0 <= j < n ==> 0 <= (#[trigger] sorted_positions(entries, n)[j]) < n,
    decreases n,
{
    if n > 0 {
        lemma_sorted_positions_range(entries, n - 1);
        lemma_insert_place(entries, sorted_positions(entries, n - 1), n - 1);
    }
}

proof fn lemma_key_lt_transitive(a: (bool, Seq<char>), b: (bool, Seq<char>), c: (bool, Seq<char>))
    requires
        key_lt(a, b),
        key_lt(b, c),
    ensures
        key_lt(a, c),
{
    if a.0 == b.0 && b.0 == c.0 {
        text::lemma_lex_transitive(a.1, b.1, c.1);
    }
}

proof fn lemma_key_le_transitive(a: (bool, Seq<char>), b: (bool, Seq<char>), c: (bool, Seq<char>))
    requires
        !key_lt(b, a),
        !key_lt(c, b),
    ensures
        !key_lt(c, a),
{
    if key_lt(c, a) {
        if a == b {
        } else {
            if !key_lt(a, b) {
                text::lemma_lex_total(a.1, b.1);
            }
            lemma_key_lt_transitive(c, a, b);
        }
    }
}

/// Each directory is listed whole and in order: every entry has exactly one
/// place, no entry stands behind one whose key comes after its own, and
/// entries with equal keys keep their order.
pub proof fn law_entries_are_sorted(entries: Seq<Entry>)
    ensures
        sorted_positions(entries, entries.len() as int).len() == entries.len(),
        sorted_positions(entries, entries.len() as int).no_duplicates(),
        forall|i: int, j: int|
            #![trigger sorted_positions(entries, entries.len() as int)[i], sorted_positions(entries, entries.len() as int)[j]]
            0 <= i < j < entries.len() ==> {
                let a = sorted_positions(entries, entries.len() as int)[i];
                let b = sorted_positions(entries, entries.len() as int)[j];
                &&& 0 <= a < entries.len()
                &&& 0 <= b < entries.len()
                &&& !key_lt(sort_key(entries[b]), sort_key(entries[a]))
                &&& (!key_lt(sort_key(entries[a]), sort_key(entries[b])) ==> a < b)
            },
{
    lemma_sorted(entries, entries.len() as int);
    lemma_sorted_positions_range(entries, entries.len() as int);
    let s = sorted_positions(entries, entries.len() as int);
    assert forall|i: int, j: int| 0 <= i < s.len() && 0 <= j < s.len() && i != j implies s[i] != s[j] by {
        if i < j {
            assert(in_order(entries, s[i], s[j]));
        } else {
            assert(in_order(entries, s[j], s[i]));
        }
    }
    assert forall|i: int, j: int|
        #![trigger sorted_positions(entries, entries.len() as int)[i], sorted_positions(entries, entries.len() as int)[j]]
        0 <= i < j < entries.len() implies {
        let a = sorted_positions(entries, entries.len() as int)[i];
        let b = sorted_positions(entries, entries.len() as int)[j];
        &&& 0 <= a < entries.len()
        &&& 0 <= b < entries.len()
        &&& !key_lt(sort_key(entries[b]), sort_key(entries[a]))
        &&& (!key_lt(sort_key(entries[a]), sort_key(entries[b])) ==> a < b)
    } by {
        assert(in_order(entries, s[i], s[j]));
    }
}

/// Whether position `a` rightly comes before position `b`.
spec fn in_order(entries: Seq<Entry>, a: int, b: int) -> bool {
    &&& a != b
    &&& !key_lt(sort_key(entries[b]), sort_key(entries[a]))
    &&& (!key_lt(sort_key(entries[a]), sort_key(entries[b])) ==> a < b)
}

proof fn lemma_sorted(entries: Seq<Entry>, n: int)
    requires
        0 <= n <= entries.len(),
    ensures
        forall|i: int, j: int|
            0 <= i < j < n ==> in_order(
                entries,
                #[trigger] sorted_positions(entries, n)[i],
                #[trigger] sorted_positions(entries, n)[j],
            ),
    decreases n,
{
    if n > 0 {
        let s = sorted_positions(entries, n - 1);
        let m = n - 1;
        let k = insert_place(entries, s, m);
        let t = sorted_positions(entries, n);
        lemma_sorted(entries, n - 1);
        lemma_sorted_positions_range(entries, n - 1);
        lemma_insert_place(entries, s, m);
        assert(t =~= s.insert(k, m));
        assert forall|i: int, j: int| 0 <= i < j < n implies in_order(
            entries,
            #[trigger] t[i],
            #[trigger] t[j],
        ) by {
            let i0 = if i < k { i } else { i - 1 };
            let j0 = if j < k { j } else { j - 1 };
            if i != k && j != k {
                assert(t[i] == s[i0] && t[j] == s[j0]);
                assert(in_order(entries, s[i0], s[j0]));
            } else if i == k {
                assert(t[j] == s[j0]);
                assert(key_lt(sort_key(entries[m]), sort_key(entries[s[j0]])));
                text::lemma_lex_irreflexive(sort_key(entries[m]).1);
                if key_lt(sort_key(entries[s[j0]]), sort_key(entries[m])) {
                    lemma_key_lt_transitive(
                        sort_key(entries[m]),
                        sort_key(entries[s[j0]]),
                        sort_key(entries[m]),
                    );
                }
            } else {
                assert(t[i] == s[i]);
                assert(!key_lt(sort_key(entries[m]), sort_key(entries[s[k - 1]])));
                if i < k - 1 {
                    assert(in_order(entries, s[i], s[k - 1]));
                    lemma_key_le_transitive(
                        sort_key(entries[s[i]]),
                        sort_key(entries[s[k - 1]]),
                        sort_key(entries[m]),
                    );
                }
            }
        }
    }
}

/// Whether the entry `a` comes before the entry `b`.
fn entry_lt(a: &Entry, b: &Entry) -> (r: bool)
    ensures
        r == key_lt(sort_key(*a), sort_key(*b)),
{
    let x: bool = !(matches!(a.kind, EntryKind::Dir) || matches!(a.kind, EntryKind::Unknown));
    let y: bool = !(matches!(b.kind, EntryKind::Dir) || matches!(b.kind, EntryKind::Unknown));
    let s = to_lower(a.name.as_str());
    let t = to_lower(b.name.as_str());
    (!x && y) || (x == y && str_lt(s.as_str(), t.as_str()))
}

/// The positions of a list of machine integers.
pub open spec fn ints(s: Seq<usize>) -> Seq<int> {
    s.map_values(|x: usize| x as int)
}

/// The positions of the entries in sorted order.
fn sort_positions(entries: &Vec<Entry>) -> (r: Vec<usize>)
    ensures
        ints(r@) == sorted_positions(entries@, entries@.len() as int),
{
    let mut out: Vec<usize> = Vec::new();
    let mut n: usize = 0;
    assert(ints(out@) =~= Seq::<int>::empty());
    while n < entries.len()
        invariant
            n <= entries.len(),
            ints(out@) == sorted_positions(entries@, n as int),
        decreases entries.len() - n,
    {
        let ghost s = sorted_positions(entries@, n as int);
        proof {
            lemma_sorted_positions_range(entries@, n as int);
        }
        let mut k: usize = out.len();
        assert(s.take(k as int) =~= s);
        while 0 < k && entry_lt(&entries[n], &entries[out[k - 1]])
            invariant
                k <= out.len(),
                n < entries.len(),
                out@.len() == n,
                s == ints(out@),
                forall|j: int| 0 <= j < n ==> 0 <= (#[trigger] s[j]) < n,
                insert_place(entries@, s, n as int) == insert_place(
                    entries@,
                    s.take(k as int),
                    n as int,
                ),
            decreases k,
        {
            assert(s[k - 1] == out@[k - 1]);
            assert(s.take(k as int).drop_last() =~= s.take(k - 1));
            k = k - 1;
        }
        proof {
            if k > 0 {
                assert(s[k - 1] == out@[k - 1]);
                assert(s.take(k as int).last() == s[k - 1]);
            }
            assert(insert_place(entries@, s, n as int) == k);
        }
        let ghost before = out@;
        out.insert(k, n);
        assert(ints(out@) =~= ints(before).insert(k as int, n as int));
        n = n + 1;
    }
    out
}

// ---------- the list that a user sees ----------

/// A name below a directory; the vault itself has the empty path.
pub open spec fn below(dir: Seq<char>, name: Seq<char>) -> Seq<char> {
    if dir.len() == 0 {
        name
    } else {
        dir + "/"@ + name
    }
}

/// A name below a directory.
fn path_below(dir: &str, name: &str) -> (r: String)
    ensures
        r@ == below(dir@, name@),
{
    if dir.is_empty() {
        name.to_owned()
    } else {
        concat3(dir, "/", name)
    }
}

/// Whether a name is hidden.
pub open spec fn is_hidden(name: Seq<char>) -> bool {
    text::starts_with(name, "."@)
}

/// Whether an entry is left out of the list: hidden ones, the directory of
/// attachments, and links.
pub open spec fn is_unlisted(e: Entry) -> bool {
    is_hidden(e.name@) || e.name@ == "assets"@ || e.kind == EntryKind::Symlink
}

/// The node of a listed entry with the path `path`.
pub open spec fn folder_node(path: Seq<char>, name: Seq<char>) -> NodeView {
    NodeView { path: text::replaced(path, '\\', '/'), kind: "folder"@, name, title: None }
}

/// The node of a note with the path `path`.
pub open spec fn note_node(path: Seq<char>, name: Seq<char>) -> NodeView {
    NodeView {
        path: text::replaced(path, '\\', '/'),
        kind: "note"@,
        name,
        title: Some(fs_ops::stem_of(name)),
    }
}

/// The list of the first `n` entries of the directory `dir` in sorted order.
/// A folder is followed at once by all that lies below it.
pub open spec fn tree_nodes(dir: Seq<char>, entries: Seq<Entry>, n: int) -> Seq<NodeView>
    decreases entries, n,
{
    let order = sorted_positions(entries, entries.len() as int);
    if n <= 0 || n > entries.len() || !(0 <= order[n - 1] < entries.len()) {
        Seq::empty()
    } else {
        let head = tree_nodes(dir, entries, n - 1);
        let e = entries[order[n - 1]];
        let path = below(dir, e.name@);
        if is_unlisted(e) {
            head
        } else if e.kind == EntryKind::Dir {
            head.push(folder_node(path, e.name@)) + tree_nodes(
                path,
                e.children@,
                e.children@.len() as int,
            )
        } else if fs_ops::is_note(e.name@) {
            head.push(note_node(path, e.name@))
        } else {
            head
        }
    }
}

/// Appends the list of a directory and all below it.
fn walk(dir: &str, entries: &Vec<Entry>, out: &mut Vec<Node>)
    ensures
        text::views(final(out)@) == text::views(old(out)@) + tree_nodes(
            dir@,
            entries@,
            entries@.len() as int,
        ),
    decreases entries@,
{
    let order = sort_positions(entries);
    let ghost start = text::views(out@);
    let mut i: usize = 0;
    proof {
        lemma_sorted_positions_range(entries@, entries@.len() as int);
        assert(start + Seq::<NodeView>::empty() =~= start);
        assert(order@.len() == ints(order@).len());
    }
    while i < order.len()
        invariant
            i <= order.len(),
            order@.len() == entries@.len(),
            ints(order@) == sorted_positions(entries@, entries@.len() as int),
            forall|j: int|
                0 <= j < entries@.len() ==> 0 <= (#[trigger] sorted_positions(
                    entries@,
                    entries@.len() as int,
                )[j]) < entries@.len(),
            text::views(out@) == start + tree_nodes(dir@, entries@, i as int),
        decreases order.len() - i,
    {
        broadcast use text::lemma_views_push;
        let ghost before = text::views(out@);
        let ghost head = tree_nodes(dir@, entries@, i as int);
        assert(sorted_positions(entries@, entries@.len() as int)[i as int] == ints(order@)[i as int]);
        assert(ints(order@)[i as int] == order@[i as int]);
        let e = &entries[order[i]];
        let path = path_below(dir, e.name.as_str());
        if has_prefix(e.name.as_str(), ".") || same(e.name.as_str(), "assets") || matches!(e.kind, EntryKind::Symlink) {
        } else if matches!(e.kind, EntryKind::Dir) {
            let node = Node {
                path: rel_to_string(path.as_str()),
                kind: "folder".to_owned(),
                name: e.name.clone(),
                title: None,
            };
            out.push(node);
            walk(path.as_str(), &e.children, out);
            proof {
                let sub = tree_nodes(path@, e.children@, e.children@.len() as int);
                let f = folder_node(path@, e.name@);
                assert(node@ == f);
                assert((start + head).push(f) + sub =~= start + (head.push(f) + sub));
            }
        } else if is_note_file(e.name.as_str()) {
            let node = Node {
                path: rel_to_string(path.as_str()),
                kind: "note".to_owned(),
                title: Some(title_from_stem(e.name.as_str())),
                name: e.name.clone(),
            };
            out.push(node);
            proof {
                let f = note_node(path@, e.name@);
                assert(node@ == f);
                assert((start + head).push(f) =~= start + head.push(f));
            }
        }
        i = i + 1;
    }
}

/// The list of a vault in depth-first order: in each directory folders come
/// first and names ascend without regard to case.
pub fn list_tree(root: &Vec<Entry>) -> (r: Vec<Node>)
    ensures
        text::views(r@) == tree_nodes(Seq::empty(), root@, root@.len() as int),
{
    let mut out: Vec<Node> = Vec::new();
    walk("", root, &mut out);
    proof {
        reveal_strlit("");
        assert(""@ =~= Seq::<char>::empty());
        assert(text::views(Seq::<Node>::empty()) =~= Seq::<NodeView>::empty());
        assert(Seq::<NodeView>::empty() + tree_nodes(Seq::empty(), root@, root@.len() as int)
            =~= tree_nodes(Seq::empty(), root@, root@.len() as int));
    }
    out
}

/// Nothing hidden and no directory of attachments is listed at any depth.
pub proof fn law_hidden_entries_are_not_listed(dir: Seq<char>, entries: Seq<Entry>, n: int, i: int)
    requires
        0 <= i < tree_nodes(dir, entries, n).len(),
    ensures
        !is_hidden(tree_nodes(dir, entries, n)[i].name),
        tree_nodes(dir, entries, n)[i].name != "assets"@,
    decreases entries, n,
{
    let order = sorted_positions(entries, entries.len() as int);
    if n <= 0 || n > entries.len() || !(0 <= order[n - 1] < entries.len()) {
    } else {
        let head = tree_nodes(dir, entries, n - 1);
        let e = entries[order[n - 1]];
        let path = below(dir, e.name@);
        if i < head.len() {
            law_hidden_entries_are_not_listed(dir, entries, n - 1, i);
        } else if !is_unlisted(e) && e.kind == EntryKind::Dir && i > head.len() {
            law_hidden_entries_are_not_listed(
                path,
                e.children@,
                e.children@.len() as int,
                i - head.len() - 1,
            );
        }
    }
}

// ---------- the chains of a tree ----------

/// Whether `chain` leads down from `root`: each entry is a directory that holds
/// the next.
pub open spec fn leads_down(root: Seq<Entry>, chain: Seq<Entry>) -> bool {
    &&& chain.len() > 0
    &&& root.contains(chain[0])
    &&& forall|i: int|
        #![trigger chain[i]]
        0 <= i < chain.len() - 1 ==> chain[i].kind == EntryKind::Dir && chain[i].children@.contains(chain[i + 1])
}

/// The names of a chain with slashes between them.
pub open spec fn chain_path(chain: Seq<Entry>) -> Seq<char> {
    text::joined(chain.map_values(|e: Entry| e.name@), '/')
}

/// Whether every entry at any depth has a name.
pub open spec fn all_named(entries: Seq<Entry>) -> bool
    decreases entries,
{
    forall|i: int|
        #![trigger entries[i]]
        0 <= i < entries.len() ==> entries[i].name@.len() > 0 && all_named(entries[i].children@)
}

/// A path below a directory, the root being the empty path.
spec fn under(dir: Seq<char>, path: Seq<char>) -> Seq<char> {
    if dir.len() == 0 {
        path
    } else {
        dir.push('/') + path
    }
}

proof fn lemma_below(dir: Seq<char>, name: Seq<char>)
    ensures
        below(dir, name) == under(dir, name),
{
    reveal_strlit("/");
    assert("/"@ =~= seq!['/']);
    if dir.len() > 0 {
        assert(dir + "/"@ + name =~= dir.push('/') + name);
    }
}

proof fn lemma_chain_path(dir: Seq<char>, chain: Seq<Entry>)
    requires
        chain.len() > 0,
        chain[0].name@.len() > 0,
    ensures
        chain.len() == 1 ==> under(dir, chain_path(chain)) == under(dir, chain[0].name@),
        chain.len() > 1 ==> under(dir, chain_path(chain)) == under(
            under(dir, chain[0].name@),
            chain_path(chain.drop_first()),
        ),
{
    let names = chain.map_values(|e: Entry| e.name@);
    if chain.len() > 1 {
        assert(names.drop_first() =~= chain.drop_first().map_values(|e: Entry| e.name@));
        let rest = chain_path(chain.drop_first());
        assert(chain_path(chain) == chain[0].name@.push('/') + rest);
        assert(under(dir, chain_path(chain)) =~= under(dir, chain[0].name@).push('/') + rest);
    }
}

proof fn lemma_chain_tail(root: Seq<Entry>, chain: Seq<Entry>)
    requires
        leads_down(root, chain),
        chain.len() > 1,
    ensures
        chain[0].kind == EntryKind::Dir,
        leads_down(chain[0].children@, chain.drop_first()),
{
    let rest = chain.drop_first();
    assert(chain[0].children@.contains(chain[1]));
    assert forall|i: int|
        #![trigger rest[i]]
        0 <= i < rest.len() - 1 implies rest[i].kind == EntryKind::Dir && rest[i].children@.contains(
        rest[i + 1],
    ) by {
        assert(rest[i] == chain[i + 1]);
    }
}

proof fn lemma_chain_grows(root: Seq<Entry>, e: Entry, chain: Seq<Entry>)
    requires
        root.contains(e),
        e.kind == EntryKind::Dir,
        leads_down(e.children@, chain),
    ensures
        leads_down(root, seq![e] + chain),
        (seq![e] + chain).drop_first() == chain,
{
    let all = seq![e] + chain;
    assert(all.drop_first() =~= chain);
    assert forall|i: int|
        #![trigger all[i]]
        0 <= i < all.len() - 1 implies all[i].kind == EntryKind::Dir && all[i].children@.contains(all[i + 1]) by {
        if i > 0 {
            assert(all[i] == chain[i - 1]);
            assert(all[i + 1] == chain[i]);
        }
    }
}

/// Whether a name is hidden, by its first character.
spec fn dotted(name: Seq<char>) -> bool {
    name.len() > 0 && name[0] == '.'
}

proof fn lemma_hidden(name: Seq<char>)
    ensures
        is_hidden(name) == dotted(name),
{
    reveal_strlit(".");
    assert("."@ =~= seq!['.']);
    if name.len() > 0 {
        assert(name.take(1) =~= seq![name[0]]);
        if is_hidden(name) {
            assert(name.take(1)[0] == '.');
        }
    }
}

// ---------- what the list holds ----------

/// Whether an entry is shown where it lies: it is not hidden, not called
/// `assets`, and no link.
pub open spec fn is_shown(e: Entry) -> bool {
    !(e.name@.len() > 0 && e.name@[0] == '.') && e.name@ != "assets"@ && e.kind != EntryKind::Symlink
}

/// Whether `node` shows the last entry of a chain: a folder, whatever it holds,
/// or a note.
pub open spec fn shows(chain: Seq<Entry>, node: NodeView) -> bool {
    let e = chain.last();
    &&& node.path == text::replaced(chain_path(chain), '\\', '/')
    &&& node.name == e.name@
    &&& if e.kind == EntryKind::Dir {
        node.kind == "folder"@ && node.title is None
    } else {
        fs_ops::is_note(e.name@) && node.kind == "note"@ && node.title == Some(fs_ops::stem_of(e.name@))
    }
}

/// The same below a directory.
spec fn shows_below(dir: Seq<char>, chain: Seq<Entry>, node: NodeView) -> bool {
    let e = chain.last();
    &&& node.path == text::replaced(under(dir, chain_path(chain)), '\\', '/')
    &&& node.name == e.name@
    &&& if e.kind == EntryKind::Dir {
        node.kind == "folder"@ && node.title is None
    } else {
        fs_ops::is_note(e.name@) && node.kind == "note"@ && node.title == Some(fs_ops::stem_of(e.name@))
    }
}

spec fn shown_chain(root: Seq<Entry>, chain: Seq<Entry>) -> bool {
    leads_down(root, chain) && forall|i: int| 0 <= i < chain.len() ==> is_shown(#[trigger] chain[i])
}

proof fn lemma_contains_either(a: Seq<NodeView>, b: Seq<NodeView>, x: NodeView)
    ensures
        (a + b).contains(x) <==> a.contains(x) || b.contains(x),
{
    let s = a + b;
    if s.contains(x) {
        let k = choose|k: int| 0 <= k < s.len() && s[k] == x;
        if k < a.len() {
            assert(a[k] == x);
        } else {
            assert(b[k - a.len()] == x);
        }
    }
    if a.contains(x) {
        let k = choose|k: int| 0 <= k < a.len() && a[k] == x;
        assert(s[k] == x);
    }
    if b.contains(x) {
        let k = choose|k: int| 0 <= k < b.len() && b[k] == x;
        assert(s[a.len() + k] == x);
    }
}

/// What entry number `k` in sorted order adds to the list.
spec fn tree_part(dir: Seq<char>, entries: Seq<Entry>, k: int) -> Seq<NodeView> {
    let e = entries[sorted_positions(entries, entries.len() as int)[k]];
    let path = under(dir, e.name@);
    if !is_shown(e) {
        Seq::empty()
    } else if e.kind == EntryKind::Dir {
        seq![folder_node(path, e.name@)] + tree_nodes(path, e.children@, e.children@.len() as int)
    } else if fs_ops::is_note(e.name@) {
        seq![note_node(path, e.name@)]
    } else {
        Seq::empty()
    }
}

proof fn lemma_tree_step(dir: Seq<char>, entries: Seq<Entry>, n: int)
    requires
        0 < n <= entries.len(),
    ensures
        tree_nodes(dir, entries, n) == tree_nodes(dir, entries, n - 1) + tree_part(dir, entries, n - 1),
{
    lemma_sorted_positions_range(entries, entries.len() as int);
    let order = sorted_positions(entries, entries.len() as int);
    let e = entries[order[n - 1]];
    lemma_hidden(e.name@);
    lemma_below(dir, e.name@);
    assert(tree_nodes(dir, entries, n) =~= tree_nodes(dir, entries, n - 1) + tree_part(dir, entries, n - 1));
}

proof fn lemma_tree_part_in(dir: Seq<char>, entries: Seq<Entry>, n: int, k: int, x: NodeView)
    requires
        0 <= k < n <= entries.len(),
        tree_part(dir, entries, k).contains(x),
    ensures
        tree_nodes(dir, entries, n).contains(x),
    decreases n,
{
    lemma_tree_step(dir, entries, n);
    lemma_contains_either(tree_nodes(dir, entries, n - 1), tree_part(dir, entries, n - 1), x);
    if k < n - 1 {
        lemma_tree_part_in(dir, entries, n - 1, k, x);
    }
}

proof fn lemma_position_of(entries: Seq<Entry>, i: int) -> (k: int)
    requires
        0 <= i < entries.len(),
    ensures
        0 <= k < entries.len(),
        sorted_positions(entries, entries.len() as int)[k] == i,
{
    let s = sorted_positions(entries, entries.len() as int);
    let n = entries.len() as int;
    law_entries_are_sorted(entries);
    lemma_sorted_positions_range(entries, n);
    let all = vstd::set_lib::set_int_range(0, n);
    vstd::set_lib::lemma_int_range(0, n);
    s.unique_seq_to_set();
    assert(s.to_set().subset_of(all)) by {
        assert forall|x: int| s.to_set().contains(x) implies all.contains(x) by {
            let j = choose|j: int| 0 <= j < s.len() && s[j] == x;
        }
    }
    vstd::set_lib::lemma_subset_equality(s.to_set(), all);
    assert(s.to_set().contains(i));
    let k = choose|k: int| 0 <= k < s.len() && s[k] == i;
    k
}

proof fn lemma_chain_is_listed(dir: Seq<char>, root: Seq<Entry>, chain: Seq<Entry>, node: NodeView)
    requires
        shown_chain(root, chain),
        forall|i: int| 0 <= i < chain.len() ==> (#[trigger] chain[i]).name@.len() > 0,
        shows_below(dir, chain, node),
    ensures
        tree_nodes(dir, root, root.len() as int).contains(node),
    decreases chain.len(),
{
    let e = chain[0];
    assert(is_shown(e));
    let i = choose|i: int| 0 <= i < root.len() && root[i] == e;
    let k = lemma_position_of(root, i);
    let path = under(dir, e.name@);
    let part = tree_part(dir, root, k);
    lemma_chain_path(dir, chain);
    if chain.len() == 1 {
        assert(chain.last() == e);
        if e.kind == EntryKind::Dir {
            assert(node == folder_node(path, e.name@));
            assert(part[0] == node);
        } else {
            assert(node == note_node(path, e.name@));
            assert(part[0] == node);
        }
    } else {
        lemma_chain_tail(root, chain);
        let rest = chain.drop_first();
        assert forall|i: int| 0 <= i < rest.len() implies is_shown(#[trigger] rest[i]) && rest[i].name@.len()
            > 0 by {
            assert(is_shown(chain[i + 1]) && chain[i + 1].name@.len() > 0);
        }
        assert(rest.last() == chain.last());
        lemma_chain_is_listed(path, e.children@, rest, node);
        lemma_contains_either(
            seq![folder_node(path, e.name@)],
            tree_nodes(path, e.children@, e.children@.len() as int),
            node,
        );
    }
    lemma_tree_part_in(dir, root, root.len() as int, k, node);
}

proof fn lemma_listed_has_chain(dir: Seq<char>, root: Seq<Entry>, n: int, node: NodeView) -> (chain: Seq<Entry>)
    requires
        0 <= n <= root.len(),
        all_named(root),
        tree_nodes(dir, root, n).contains(node),
    ensures
        shown_chain(root, chain),
        shows_below(dir, chain, node),
    decreases root, n,
{
    if n <= 0 {
        assert(false);
    }
    lemma_tree_step(dir, root, n);
    lemma_sorted_positions_range(root, root.len() as int);
    let head = tree_nodes(dir, root, n - 1);
    let part = tree_part(dir, root, n - 1);
    lemma_contains_either(head, part, node);
    if head.contains(node) {
        lemma_listed_has_chain(dir, root, n - 1, node)
    } else {
        let e = root[sorted_positions(root, root.len() as int)[n - 1]];
        let path = under(dir, e.name@);
        let one = seq![e];
        assert(root.contains(e));
        assert(e.name@.len() > 0);
        assert(one.last() == e);
        assert(leads_down(root, one));
        lemma_chain_path(dir, one);
        if e.kind == EntryKind::Dir {
            let sub = tree_nodes(path, e.children@, e.children@.len() as int);
            let first = seq![folder_node(path, e.name@)];
            lemma_contains_either(first, sub, node);
            if sub.contains(node) {
                let rest = lemma_listed_has_chain(path, e.children@, e.children@.len() as int, node);
                lemma_chain_grows(root, e, rest);
                let all = one + rest;
                lemma_chain_path(dir, all);
                assert(all.last() == rest.last());
                assert forall|i: int| 0 <= i < all.len() implies is_shown(#[trigger] all[i]) by {
                    if i > 0 {
                        assert(is_shown(rest[i - 1]));
                    }
                }
                all
            } else {
                let k = choose|k: int| 0 <= k < first.len() && first[k] == node;
                assert(node == folder_node(path, e.name@));
                one
            }
        } else {
            let k = choose|k: int| 0 <= k < part.len() && part[k] == node;
            assert(node == note_node(path, e.name@));
            one
        }
    }
}

/// The list shows every folder, empty or not, and every note, and nothing else:
/// a node is in it exactly if directories that are shown lead from the root to
/// its entry, which is shown too. Its path is the names on the way with slashes
/// between them.
pub proof fn law_every_shown_entry_is_listed(root: &Vec<Entry>, r: Vec<Node>, node: NodeView)
    requires
        call_ensures(list_tree, (root,), r),
        all_named(root@),
    ensures
        text::views(r@).contains(node) <==> exists|chain: Seq<Entry>|
            {
                &&& #[trigger] leads_down(root@, chain)
                &&& forall|i: int| 0 <= i < chain.len() ==> is_shown(#[trigger] chain[i])
                &&& shows(chain, node)
            },
{
    let none = Seq::<char>::empty();
    if text::views(r@).contains(node) {
        let chain = lemma_listed_has_chain(none, root@, root@.len() as int, node);
        assert(leads_down(root@, chain) && shows(chain, node));
    }
    assert forall|chain: Seq<Entry>|
        #[trigger] leads_down(root@, chain) && (forall|i: int|
            0 <= i < chain.len() ==> is_shown(#[trigger] chain[i])) && shows(chain, node) implies text::views(
        r@,
    ).contains(node) by {
        lemma_chain_named(root@, chain);
        assert(shows_below(none, chain, node));
        lemma_chain_is_listed(none, root@, chain, node);
    }
}

proof fn lemma_chain_named(root: Seq<Entry>, chain: Seq<Entry>)
    requires
        all_named(root),
        leads_down(root, chain),
    ensures
        forall|i: int| 0 <= i < chain.len() ==> (#[trigger] chain[i]).name@.len() > 0,
    decreases chain.len(),
{
    let a = choose|a: int| 0 <= a < root.len() && root[a] == chain[0];
    assert(root[a].name@.len() > 0 && all_named(root[a].children@));
    if chain.len() > 1 {
        lemma_chain_tail(root, chain);
        let rest = chain.drop_first();
        lemma_chain_named(chain[0].children@, rest);
        assert forall|i: int| 0 <= i < chain.len() implies (#[trigger] chain[i]).name@.len() > 0 by {
            if i > 0 {
                assert(rest[i - 1] == chain[i]);
            }
        }
    }
}

// ---------- the notes to index ----------

/// The paths of the notes among the first `n` entries of the directory `dir`
/// and all below them; hidden entries and links are passed over.
pub open spec fn note_paths(dir: Seq<char>, entries: Seq<Entry>, n: int) -> Seq<Seq<char>>
    decreases entries, n,
{
    if n <= 0 || n > entries.len() {
        Seq::empty()
    } else {
        let head = note_paths(dir, entries, n - 1);
        let e = entries[n - 1];
        let path = below(dir, e.name@);
        if is_hidden(e.name@) || e.kind == EntryKind::Unknown || e.kind == EntryKind::Symlink {
            head
        } else if e.kind == EntryKind::Dir {
            head + note_paths(path, e.children@, e.children@.len() as int)
        } else if fs_ops::is_note(e.name@) {
            head.push(text::replaced(path, '\\', '/'))
        } else {
            head
        }
    }
}

/// Appends the paths of the notes of a directory and all below it.
fn collect_into(dir: &str, entries: &Vec<Entry>, out: &mut Vec<String>)
    ensures
        text::views(final(out)@) == text::views(old(out)@) + note_paths(
            dir@,
            entries@,
            entries@.len() as int,
        ),
    decreases entries@,
{
    let ghost start = text::views(out@);
    let mut i: usize = 0;
    assert(start + Seq::<Seq<char>>::empty() =~= start);
    while i < entries.len()
        invariant
            i <= entries.len(),
            text::views(out@) == start + note_paths(dir@, entries@, i as int),
        decreases entries.len() - i,
    {
        broadcast use text::lemma_views_push;
        let ghost head = note_paths(dir@, entries@, i as int);
        let e = &entries[i];
        let path = path_below(dir, e.name.as_str());
        if has_prefix(e.name.as_str(), ".") || matches!(e.kind, EntryKind::Unknown) || matches!(e.kind, EntryKind::Symlink) {
        } else if matches!(e.kind, EntryKind::Dir) {
            collect_into(path.as_str(), &e.children, out);
            proof {
                let sub = note_paths(path@, e.children@, e.children@.len() as int);
                assert((start + head) + sub =~= start + (head + sub));
            }
        } else if is_note_file(e.name.as_str()) {
            let rel = rel_to_string(path.as_str());
            out.push(rel);
            assert((start + head).push(rel@) =~= start + head.push(rel@));
        }
        i = i + 1;
    }
}

/// The paths of all notes of a vault.
pub fn collect_notes(root: &Vec<Entry>) -> (r: Vec<String>)
    ensures
        text::views(r@) == note_paths(Seq::empty(), root@, root@.len() as int),
{
    let mut out: Vec<String> = Vec::new();
    collect_into("", root, &mut out);
    proof {
        reveal_strlit("");
        assert(""@ =~= Seq::<char>::empty());
        assert(text::views(Seq::<String>::empty()) =~= Seq::<Seq<char>>::empty());
        assert(Seq::<Seq<char>>::empty() + note_paths(Seq::empty(), root@, root@.len() as int)
            =~= note_paths(Seq::empty(), root@, root@.len() as int));
    }
    out
}

/// Whether a chain leads to a note that is indexed: nothing on the way is
/// hidden, and at its end is a file, no link, that is named like a note.
pub open spec fn leads_to_note(root: Seq<Entry>, chain: Seq<Entry>) -> bool {
    &&& leads_down(root, chain)
    &&& forall|i: int|
        0 <= i < chain.len() ==> !((#[trigger] chain[i]).name@.len() > 0 && chain[i].name@[0] == '.')
    &&& chain.last().kind == EntryKind::File || chain.last().kind == EntryKind::Other
    &&& fs_ops::is_note(chain.last().name@)
}

proof fn lemma_path_in_either(a: Seq<Seq<char>>, b: Seq<Seq<char>>, x: Seq<char>)
    ensures
        (a + b).contains(x) <==> a.contains(x) || b.contains(x),
{
    let s = a + b;
    if s.contains(x) {
        let k = choose|k: int| 0 <= k < s.len() && s[k] == x;
        if k < a.len() {
            assert(a[k] == x);
        } else {
            assert(b[k - a.len()] == x);
        }
    }
    if a.contains(x) {
        let k = choose|k: int| 0 <= k < a.len() && a[k] == x;
        assert(s[k] == x);
    }
    if b.contains(x) {
        let k = choose|k: int| 0 <= k < b.len() && b[k] == x;
        assert(s[a.len() + k] == x);
    }
}

/// What entry number `k` adds to the notes.
spec fn notes_part(dir: Seq<char>, entries: Seq<Entry>, k: int) -> Seq<Seq<char>> {
    let e = entries[k];
    let path = under(dir, e.name@);
    if dotted(e.name@) || e.kind == EntryKind::Unknown || e.kind == EntryKind::Symlink {
        Seq::empty()
    } else if e.kind == EntryKind::Dir {
        note_paths(path, e.children@, e.children@.len() as int)
    } else if fs_ops::is_note(e.name@) {
        seq![text::replaced(path, '\\', '/')]
    } else {
        Seq::empty()
    }
}

proof fn lemma_notes_step(dir: Seq<char>, entries: Seq<Entry>, n: int)
    requires
        0 < n <= entries.len(),
    ensures
        note_paths(dir, entries, n) == note_paths(dir, entries, n - 1) + notes_part(dir, entries, n - 1),
{
    lemma_hidden(entries[n - 1].name@);
    lemma_below(dir, entries[n - 1].name@);
    assert(note_paths(dir, entries, n) =~= note_paths(dir, entries, n - 1) + notes_part(dir, entries, n - 1));
}

proof fn lemma_notes_part_in(dir: Seq<char>, entries: Seq<Entry>, n: int, k: int, x: Seq<char>)
    requires
        0 <= k < n <= entries.len(),
        notes_part(dir, entries, k).contains(x),
    ensures
        note_paths(dir, entries, n).contains(x),
    decreases n,
{
    lemma_notes_step(dir, entries, n);
    lemma_path_in_either(note_paths(dir, entries, n - 1), notes_part(dir, entries, n - 1), x);
    if k < n - 1 {
        lemma_notes_part_in(dir, entries, n - 1, k, x);
    }
}

proof fn lemma_chain_is_collected(dir: Seq<char>, root: Seq<Entry>, chain: Seq<Entry>)
    requires
        leads_to_note(root, chain),
        forall|i: int| 0 <= i < chain.len() ==> (#[trigger] chain[i]).name@.len() > 0,
    ensures
        note_paths(dir, root, root.len() as int).contains(
            text::replaced(under(dir, chain_path(chain)), '\\', '/'),
        ),
    decreases chain.len(),
{
    let e = chain[0];
    let x = text::replaced(under(dir, chain_path(chain)), '\\', '/');
    let k = choose|k: int| 0 <= k < root.len() && root[k] == e;
    let path = under(dir, e.name@);
    let part = notes_part(dir, root, k);
    lemma_chain_path(dir, chain);
    assert(!dotted(e.name@));
    if chain.len() == 1 {
        assert(chain.last() == e);
        assert(part[0] == x);
    } else {
        lemma_chain_tail(root, chain);
        let rest = chain.drop_first();
        assert forall|i: int| 0 <= i < rest.len() implies !((#[trigger] rest[i]).name@.len() > 0
            && rest[i].name@[0] == '.') && rest[i].name@.len() > 0 by {
            assert(chain[i + 1].name@.len() > 0);
            assert(!(chain[i + 1].name@.len() > 0 && chain[i + 1].name@[0] == '.'));
        }
        assert(rest.last() == chain.last());
        lemma_chain_is_collected(path, e.children@, rest);
    }
    lemma_notes_part_in(dir, root, root.len() as int, k, x);
}

proof fn lemma_collected_has_chain(dir: Seq<char>, root: Seq<Entry>, n: int, x: Seq<char>) -> (chain: Seq<Entry>)
    requires
        0 <= n <= root.len(),
        all_named(root),
        note_paths(dir, root, n).contains(x),
    ensures
        leads_to_note(root, chain),
        x == text::replaced(under(dir, chain_path(chain)), '\\', '/'),
    decreases root, n,
{
    if n <= 0 {
        assert(false);
    }
    lemma_notes_step(dir, root, n);
    let head = note_paths(dir, root, n - 1);
    let part = notes_part(dir, root, n - 1);
    lemma_path_in_either(head, part, x);
    if head.contains(x) {
        lemma_collected_has_chain(dir, root, n - 1, x)
    } else {
        let e = root[n - 1];
        let path = under(dir, e.name@);
        let one = seq![e];
        assert(root.contains(e));
        assert(e.name@.len() > 0);
        assert(one.last() == e);
        assert(leads_down(root, one));
        lemma_chain_path(dir, one);
        if e.kind == EntryKind::Dir {
            let rest = lemma_collected_has_chain(path, e.children@, e.children@.len() as int, x);
            lemma_chain_grows(root, e, rest);
            let all = one + rest;
            lemma_chain_path(dir, all);
            assert(all.last() == rest.last());
            assert forall|i: int| 0 <= i < all.len() implies !((#[trigger] all[i]).name@.len() > 0
                && all[i].name@[0] == '.') by {
                if i > 0 {
                    assert(all[i] == rest[i - 1]);
                }
            }
            all
        } else {
            let k = choose|k: int| 0 <= k < part.len() && part[k] == x;
            one
        }
    }
}

/// The notes that are indexed are those that can be reached: a path is among
/// them exactly if it is the names, with slashes between them, of directories
/// that lead down from the root, none of them hidden, and of a note in the last
/// of them.
pub proof fn law_every_note_is_collected(root: &Vec<Entry>, r: Vec<String>, path: Seq<char>)
    requires
        call_ensures(collect_notes, (root,), r),
        all_named(root@),
    ensures
        text::views(r@).contains(path) <==> exists|chain: Seq<Entry>| #[trigger]
            leads_to_note(root@, chain) && path == text::replaced(chain_path(chain), '\\', '/'),
{
    let none = Seq::<char>::empty();
    if text::views(r@).contains(path) {
        let chain = lemma_collected_has_chain(none, root@, root@.len() as int, path);
        assert(leads_to_note(root@, chain));
    }
    assert forall|chain: Seq<Entry>| #[trigger]
        leads_to_note(root@, chain) && path == text::replaced(chain_path(chain), '\\', '/') implies text::views(
        r@,
    ).contains(path) by {
        lemma_chain_named(root@, chain);
        lemma_chain_is_collected(none, root@, chain);
    }
}

/// A note on disk; what could not be read is empty.
pub struct DiskNote {
    pub path: String,
    pub bytes: Vec<u8>,
    pub mtime_ms: i64,
}

/// What a reindex does to the index.
pub struct Reindex {
    /// The rows to write.
    pub rows: Vec<IndexRow>,
    /// The paths to take out.
    pub stale: Vec<String>,
}

/// The row of a note on disk.
pub open spec fn disk_row(n: DiskNote) -> fs_ops::IndexRowView {
    fs_ops::row_of(n.path@, text::lossy_text(n.bytes@), n.bytes@, n.mtime_ms)
}

/// The paths of notes on disk.
pub open spec fn disk_paths(s: Seq<DiskNote>) -> Seq<Seq<char>> {
    s.map_values(|n: DiskNote| n.path@)
}

/// Brings the index to what is on disk: a row for every note, and every path
/// out that is no note on disk any more. `indexed` are the paths in the index
/// once the rows are written.
pub fn reindex(notes: &Vec<DiskNote>, indexed: &Vec<String>) -> (r: Reindex)
    ensures
        text::views(r.rows@) == notes@.map_values(|n: DiskNote| disk_row(n)),
        text::views(r.stale@) == text::views(indexed@).filter(
            |p: Seq<char>| !disk_paths(notes@).contains(p),
        ),
{
    let mut rows: Vec<IndexRow> = Vec::new();
    let mut on_disk: StrMap<bool> = StrMap::new();
    let mut i: usize = 0;
    let ghost f = |n: DiskNote| disk_row(n);
    proof {
        assert(text::views(rows@) =~= notes@.take(0).map_values(f));
    }
    while i < notes.len()
        invariant
            i <= notes.len(),
            f == (|n: DiskNote| disk_row(n)),
            on_disk.wf(),
            forall|p: Seq<char>| #[trigger]
                on_disk@.dom().contains(p) <==> disk_paths(notes@.take(i as int)).contains(p),
            text::views(rows@) == notes@.take(i as int).map_values(f),
        decreases notes.len() - i,
    {
        broadcast use text::lemma_views_push;
        let n = &notes[i];
        let body = from_utf8_lossy(n.bytes.as_slice());
        let row = index_row(n.path.as_str(), body.as_str(), n.bytes.as_slice(), n.mtime_ms);
        let ghost before = on_disk@;
        rows.push(row);
        on_disk.insert(n.path.clone(), true);
        proof {
            let a = notes@.take(i as int);
            let b = notes@.take(i + 1);
            assert(b =~= a.push(*n));
            assert(b.map_values(f) =~= a.map_values(f).push(row@));
            assert(disk_paths(b) =~= disk_paths(a).push(n.path@));
            assert forall|p: Seq<char>| #[trigger]
                on_disk@.dom().contains(p) <==> disk_paths(b).contains(p) by {
                let x = disk_paths(a);
                let y = disk_paths(b);
                if y.contains(p) {
                    let k = choose|k: int| 0 <= k < y.len() && y[k] == p;
                    if k < x.len() {
                        assert(x[k] == p);
                    }
                }
                if x.contains(p) {
                    let k = choose|k: int| 0 <= k < x.len() && x[k] == p;
                    assert(y[k] == p);
                }
                assert(y[x.len() as int] == n.path@);
                assert(before.dom().contains(p) <==> x.contains(p));
            }
        }
        i = i + 1;
    }
    assert(notes@.take(i as int) =~= notes@);
    let mut stale: Vec<String> = Vec::new();
    let ghost g = |p: Seq<char>| !disk_paths(notes@).contains(p);
    let mut j: usize = 0;
    proof {
        reveal(Seq::filter);
        assert(text::views(indexed@).take(0).filter(g) =~= Seq::empty());
        assert(text::views(stale@) =~= Seq::empty());
    }
    while j < indexed.len()
        invariant
            j <= indexed.len(),
            g == (|p: Seq<char>| !disk_paths(notes@).contains(p)),
            on_disk.wf(),
            forall|p: Seq<char>| #[trigger]
                on_disk@.dom().contains(p) <==> disk_paths(notes@).contains(p),
            text::views(stale@) == text::views(indexed@).take(j as int).filter(g),
        decreases indexed.len() - j,
    {
        broadcast use text::lemma_views_push;
        proof {
            let s = text::views(indexed@);
            assert(s.take(j + 1) =~= s.take(j as int).push(s[j as int]));
            s.take(j as int).lemma_filter_push(s[j as int], g);
        }
        if !on_disk.contains_key(indexed[j].as_str()) {
            stale.push(indexed[j].clone());
        }
        j = j + 1;
    }
    assert(text::views(indexed@).take(j as int) =~= text::views(indexed@));
    Reindex { rows, stale }
}

// ---------- the files of an entry ----------

/// The attachments among the first `n` entries of the directory `dir` and all
/// below them; links are passed over.
pub open spec fn asset_paths(dir: Seq<char>, entries: Seq<Entry>, n: int) -> Seq<Seq<char>>
    decreases entries, n,
{
    if n <= 0 || n > entries.len() {
        Seq::empty()
    } else {
        let head = asset_paths(dir, entries, n - 1);
        let e = entries[n - 1];
        let path = below(dir, e.name@);
        let rel = text::replaced(path, '\\', '/');
        if e.kind == EntryKind::Dir {
            head + asset_paths(path, e.children@, e.children@.len() as int)
        } else if e.kind == EntryKind::File && text::starts_with(rel, "assets/"@) {
            head.push(rel)
        } else {
            head
        }
    }
}

/// Appends the attachments of a directory and all below it.
fn assets_into(dir: &str, entries: &Vec<Entry>, out: &mut Vec<String>)
    ensures
        text::views(final(out)@) == text::views(old(out)@) + asset_paths(
            dir@,
            entries@,
            entries@.len() as int,
        ),
    decreases entries@,
{
    let ghost start = text::views(out@);
    let mut i: usize = 0;
    assert(start + Seq::<Seq<char>>::empty() =~= start);
    while i < entries.len()
        invariant
            i <= entries.len(),
            text::views(out@) == start + asset_paths(dir@, entries@, i as int),
        decreases entries.len() - i,
    {
        broadcast use text::lemma_views_push;
        let ghost head = asset_paths(dir@, entries@, i as int);
        let e = &entries[i];
        let path = path_below(dir, e.name.as_str());
        if matches!(e.kind, EntryKind::Dir) {
            assets_into(path.as_str(), &e.children, out);
            proof {
                let sub = asset_paths(path@, e.children@, e.children@.len() as int);
                assert((start + head) + sub =~= start + (head + sub));
            }
        } else if matches!(e.kind, EntryKind::File) {
            let rel = rel_to_string(path.as_str());
            if has_prefix(rel.as_str(), "assets/") {
                out.push(rel);
                assert((start + head).push(rel@) =~= start + head.push(rel@));
            }
        }
        i = i + 1;
    }
}

/// Whether a list ascends strictly, so that nothing stands in it twice.
pub open spec fn strictly_ascending(s: Seq<Seq<char>>) -> bool {
    forall|i: int, j: int| 0 <= i < j < s.len() ==> text::lex_lt(#[trigger] s[i], #[trigger] s[j])
}

/// The list in ascending order, each text once.
pub fn sorted_unique(list: &Vec<String>) -> (r: Vec<String>)
    ensures
        strictly_ascending(text::views(r@)),
        forall|p: Seq<char>| #[trigger]
            text::views(r@).contains(p) <==> text::views(list@).contains(p),
{
    let mut set: StrMap<bool> = StrMap::new();
    let ghost all = text::views(list@);
    let mut i: usize = 0;
    while i < list.len()
        invariant
            i <= list.len(),
            set.wf(),
            all == text::views(list@),
            forall|p: Seq<char>| #[trigger]
                set@.dom().contains(p) <==> all.take(i as int).contains(p),
        decreases list.len() - i,
    {
        let ghost before = set@;
        set.insert(list[i].clone(), true);
        proof {
            let x = all.take(i as int);
            let y = all.take(i + 1);
            assert forall|p: Seq<char>| #[trigger] set@.dom().contains(p) <==> y.contains(p) by {
                if y.contains(p) {
                    let k = choose|k: int| 0 <= k < y.len() && y[k] == p;
                    if k < x.len() {
                        assert(x[k] == p);
                    }
                }
                if x.contains(p) {
                    let k = choose|k: int| 0 <= k < x.len() && x[k] == p;
                    assert(y[k] == p);
                }
                assert(y[i as int] == list@[i as int]@);
                assert(before.dom().contains(p) <==> x.contains(p));
            }
        }
        i = i + 1;
    }
    assert(all.take(i as int) =~= all);
    let mut out: Vec<String> = Vec::new();
    let n = set.len();
    let mut j: usize = 0;
    proof {
        set.lemma_keys();
        assert(text::views(out@) =~= set.keys().take(0));
    }
    while j < n
        invariant
            j <= n,
            n == set.keys().len(),
            text::views(out@) == set.keys().take(j as int),
        decreases n - j,
    {
        broadcast use text::lemma_views_push;
        out.push(set.key_at(j).clone());
        j = j + 1;
        assert(set.keys().take(j as int) =~= set.keys().take(j - 1).push(set.keys()[j - 1]));
    }
    assert(set.keys().take(j as int) =~= set.keys());
    proof {
        assert forall|p: Seq<char>| #[trigger]
            text::views(out@).contains(p) <==> text::views(list@).contains(p) by {
            assert(set@.dom().contains(p) <==> set.keys().contains(p));
        }
    }
    out
}

/// The files that sync knows below an entry: a file is itself; of a folder,
/// the notes that the index lists below it and the attachments on disk, in
/// ascending order and each once. Files of others are not listed.
pub fn entry_file_list(
    vault: &str,
    rel: &str,
    facts: &fs_ops::PathFacts,
    is_file: bool,
    notes: &Vec<String>,
    entries: &Vec<Entry>,
) -> (r: Result<Vec<String>, FsError>)
    ensures
        match fs_ops::resolved(vault@, rel@, facts.nearest, facts.canon_vault@) {
            Err(e) => r is Err && r->Err_0@ == e,
            Ok(_) => if is_file {
                r is Ok && text::views(r->Ok_0@) == seq![rel@]
            } else if !facts.is_dir {
                r is Err && r->Err_0@ == fs_ops::fs_error(FsErrorKind::NotFound, "条目不存在"@)
            } else {
                &&& r is Ok
                &&& strictly_ascending(text::views(r->Ok_0@))
                &&& forall|p: Seq<char>| #[trigger]
                    text::views(r->Ok_0@).contains(p) <==> text::views(notes@).contains(p)
                        || asset_paths(
                        fs_ops::strip_lead_dots(text::trimmed(rel@)),
                        entries@,
                        entries@.len() as int,
                    ).contains(p)
            },
        },
{
    match fs_ops::resolve_in_vault(vault, rel, &facts.nearest, facts.canon_vault.as_str()) {
        Err(e) => {
            return Err(e);
        },
        Ok(_) => {},
    }
    if is_file {
        let mut one: Vec<String> = Vec::new();
        one.push(rel.to_owned());
        assert(text::views(one@) =~= seq![rel@]);
        return Ok(one);
    }
    if !facts.is_dir {
        return Err(FsError::new(FsErrorKind::NotFound, "条目不存在"));
    }
    let mut all: Vec<String> = Vec::new();
    let mut i: usize = 0;
    assert(text::views(all@) =~= text::views(notes@).take(0));
    while i < notes.len()
        invariant
            i <= notes.len(),
            text::views(all@) == text::views(notes@).take(i as int),
        decreases notes.len() - i,
    {
        broadcast use text::lemma_views_push;
        all.push(notes[i].clone());
        i = i + 1;
        assert(text::views(notes@).take(i as int) =~= text::views(notes@).take(i - 1).push(
            text::views(notes@)[i - 1],
        ));
    }
    assert(text::views(notes@).take(i as int) =~= text::views(notes@));
    let trimmed_rel = text::trim(rel);
    let t = fs_ops::without_lead_dots(trimmed_rel.as_str());
    assets_into(t.as_str(), entries, &mut all);
    let out = sorted_unique(&all);
    proof {
        let x = text::views(notes@);
        let y = asset_paths(t@, entries@, entries@.len() as int);
        assert forall|p: Seq<char>| #[trigger] text::views(out@).contains(p) <==> x.contains(p)
            || y.contains(p) by {
            let z = x + y;
            assert(text::views(all@) == z);
            if z.contains(p) {
                let k = choose|k: int| 0 <= k < z.len() && z[k] == p;
                if k < x.len() {
                    assert(x[k] == p);
                } else {
                    assert(y[k - x.len()] == p);
                }
            }
            if x.contains(p) {
                let k = choose|k: int| 0 <= k < x.len() && x[k] == p;
                assert(z[k] == p);
            }
            if y.contains(p) {
                let k = choose|k: int| 0 <= k < y.len() && y[k] == p;
                assert(z[k + x.len()] == p);
            }
        }
    }
    Ok(out)
}

// ---------- the figures of a vault ----------

/// How large a vault is.
#[derive(Debug, Clone, Copy, PartialEq, Eq, Structural)]
pub struct VaultStats {
    pub notes: usize,
    pub folders: usize,
    pub assets: usize,
    /// The bytes of the notes, the attachments and the metadata together.
    pub bytes: u64,
    pub trash_entries: usize,
    pub trash_bytes: u64,
}

/// The bytes of all files among the first `n` entries and below them; links
/// are not followed.
pub open spec fn total_bytes(entries: Seq<Entry>, n: int) -> nat
    decreases entries, n,
{
    if n <= 0 || n > entries.len() {
        0
    } else {
        let e = entries[n - 1];
        total_bytes(entries, n - 1) + if e.kind == EntryKind::Dir {
            total_bytes(e.children@, e.children@.len() as int)
        } else if e.kind == EntryKind::File {
            e.len as nat
        } else {
            0
        }
    }
}

/// The number of files among the first `n` entries and below them.
pub open spec fn total_files(entries: Seq<Entry>, n: int) -> nat
    decreases entries, n,
{
    if n <= 0 || n > entries.len() {
        0
    } else {
        let e = entries[n - 1];
        total_files(entries, n - 1) + if e.kind == EntryKind::Dir {
            total_files(e.children@, e.children@.len() as int)
        } else if e.kind == EntryKind::File {
            1
        } else {
            0
        }
    }
}

/// What is counted of a part of a vault.
pub struct Tally {
    pub notes: nat,
    pub folders: nat,
    pub assets: nat,
    pub bytes: nat,
}

impl Tally {
    /// Two tallies together.
    pub open spec fn plus(self, other: Tally) -> Tally {
        Tally {
            notes: self.notes + other.notes,
            folders: self.folders + other.folders,
            assets: self.assets + other.assets,
            bytes: self.bytes + other.bytes,
        }
    }

    /// Whether machine integers can hold it.
    pub open spec fn fits(self) -> bool {
        &&& self.notes <= usize::MAX
        &&& self.folders <= usize::MAX
        &&& self.assets <= usize::MAX
        &&& self.bytes <= u64::MAX
    }
}

/// Whether a file counts as a note.
pub open spec fn counts_as_note(name: Seq<char>) -> bool {
    text::ends_with(text::lowercase(name), ".md"@)
}

/// What is counted of the first `n` entries of a directory and all below them.
/// Hidden entries are left out. A folder counts as one and is gone into; the
/// attachment directory of the vault itself counts only by its files. Of the
/// other files, notes and attachments are told apart by name. Every file
/// counts with its bytes, once.
pub open spec fn tally(entries: Seq<Entry>, top: bool, n: int) -> Tally
    decreases entries, n,
{
    if n <= 0 || n > entries.len() {
        Tally { notes: 0, folders: 0, assets: 0, bytes: 0 }
    } else {
        let e = entries[n - 1];
        let head = tally(entries, top, n - 1);
        if is_hidden(e.name@) {
            head
        } else if e.kind == EntryKind::Dir && top && e.name@ == "assets"@ {
            head.plus(
                Tally {
                    notes: 0,
                    folders: 0,
                    assets: total_files(e.children@, e.children@.len() as int),
                    bytes: total_bytes(e.children@, e.children@.len() as int),
                },
            )
        } else if e.kind == EntryKind::Dir {
            head.plus(Tally { notes: 0, folders: 1, assets: 0, bytes: 0 }).plus(
                tally(e.children@, false, e.children@.len() as int),
            )
        } else if e.kind == EntryKind::File && counts_as_note(e.name@) {
            head.plus(Tally { notes: 1, folders: 0, assets: 0, bytes: e.len as nat })
        } else if e.kind == EntryKind::File {
            head.plus(Tally { notes: 0, folders: 0, assets: 1, bytes: e.len as nat })
        } else {
            head
        }
    }
}

proof fn lemma_total_bytes_grows(entries: Seq<Entry>, i: int, n: int)
    requires
        0 <= i <= n <= entries.len(),
    ensures
        total_bytes(entries, i) <= total_bytes(entries, n),
    decreases n,
{
    if i < n {
        lemma_total_bytes_grows(entries, i, n - 1);
    }
}

proof fn lemma_total_files_grows(entries: Seq<Entry>, i: int, n: int)
    requires
        0 <= i <= n <= entries.len(),
    ensures
        total_files(entries, i) <= total_files(entries, n),
    decreases n,
{
    if i < n {
        lemma_total_files_grows(entries, i, n - 1);
    }
}

proof fn lemma_tally_grows(entries: Seq<Entry>, top: bool, i: int, n: int)
    requires
        0 <= i <= n <= entries.len(),
    ensures
        tally(entries, top, i).notes <= tally(entries, top, n).notes,
        tally(entries, top, i).folders <= tally(entries, top, n).folders,
        tally(entries, top, i).assets <= tally(entries, top, n).assets,
        tally(entries, top, i).bytes <= tally(entries, top, n).bytes,
    decreases n,
{
    if i < n {
        lemma_tally_grows(entries, top, i, n - 1);
    }
}

/// The bytes of all files below a directory.
pub fn dir_bytes(entries: &Vec<Entry>) -> (r: u64)
    requires
        total_bytes(entries@, entries@.len() as int) <= u64::MAX,
    ensures
        r == total_bytes(entries@, entries@.len() as int),
    decreases entries@,
{
    let mut total: u64 = 0;
    let mut i: usize = 0;
    while i < entries.len()
        invariant
            i <= entries.len(),
            total == total_bytes(entries@, i as int),
            total_bytes(entries@, entries@.len() as int) <= u64::MAX,
        decreases entries.len() - i,
    {
        let e = &entries[i];
        proof {
            lemma_total_bytes_grows(entries@, i + 1, entries@.len() as int);
        }
        if matches!(e.kind, EntryKind::Dir) {
            total = total + dir_bytes(&e.children);
        } else if matches!(e.kind, EntryKind::File) {
            total = total + e.len;
        }
        i = i + 1;
    }
    total
}

/// The number of files below a directory.
pub fn count_files(entries: &Vec<Entry>) -> (r: usize)
    requires
        total_files(entries@, entries@.len() as int) <= usize::MAX,
    ensures
        r == total_files(entries@, entries@.len() as int),
    decreases entries@,
{
    let mut total: usize = 0;
    let mut i: usize = 0;
    while i < entries.len()
        invariant
            i <= entries.len(),
            total == total_files(entries@, i as int),
            total_files(entries@, entries@.len() as int) <= usize::MAX,
        decreases entries.len() - i,
    {
        let e = &entries[i];
        proof {
            lemma_total_files_grows(entries@, i + 1, entries@.len() as int);
        }
        if matches!(e.kind, EntryKind::Dir) {
            total = total + count_files(&e.children);
        } else if matches!(e.kind, EntryKind::File) {
            total = total + 1;
        }
        i = i + 1;
    }
    total
}

/// Counts a directory and all below it.
fn count(entries: &Vec<Entry>, top: bool) -> (r: VaultStats)
    requires
        tally(entries@, top, entries@.len() as int).fits(),
    ensures
        r.notes == tally(entries@, top, entries@.len() as int).notes,
        r.folders == tally(entries@, top, entries@.len() as int).folders,
        r.assets == tally(entries@, top, entries@.len() as int).assets,
        r.bytes == tally(entries@, top, entries@.len() as int).bytes,
        r.trash_entries == 0,
        r.trash_bytes == 0,
    decreases entries@,
{
    let mut st = VaultStats { notes: 0, folders: 0, assets: 0, bytes: 0, trash_entries: 0, trash_bytes: 0 };
    let mut i: usize = 0;
    while i < entries.len()
        invariant
            i <= entries.len(),
            tally(entries@, top, entries@.len() as int).fits(),
            st.notes == tally(entries@, top, i as int).notes,
            st.folders == tally(entries@, top, i as int).folders,
            st.assets == tally(entries@, top, i as int).assets,
            st.bytes == tally(entries@, top, i as int).bytes,
            st.trash_entries == 0,
            st.trash_bytes == 0,
        decreases entries.len() - i,
    {
        let e = &entries[i];
        proof {
            lemma_tally_grows(entries@, top, i + 1, entries@.len() as int);
        }
        if has_prefix(e.name.as_str(), ".") {
        } else if matches!(e.kind, EntryKind::Dir) {
            if top && same(e.name.as_str(), "assets") {
                st.assets = st.assets + count_files(&e.children);
                st.bytes = st.bytes + dir_bytes(&e.children);
            } else {
                let sub = count(&e.children, false);
                st.folders = st.folders + 1 + sub.folders;
                st.notes = st.notes + sub.notes;
                st.assets = st.assets + sub.assets;
                st.bytes = st.bytes + sub.bytes;
            }
        } else if matches!(e.kind, EntryKind::File) {
            let low = to_lower(e.name.as_str());
            if has_suffix(low.as_str(), ".md") {
                st.notes = st.notes + 1;
            } else {
                st.assets = st.assets + 1;
            }
            st.bytes = st.bytes + e.len;
        }
        i = i + 1;
    }
    st
}

/// The entries below the directory `name` among the first `n` entries; none
/// where there is no such directory.
pub open spec fn entries_of(entries: Seq<Entry>, name: Seq<char>, n: int) -> Seq<Entry>
    decreases n,
{
    if n <= 0 || n > entries.len() {
        Seq::empty()
    } else if entries[n - 1].kind == EntryKind::Dir && entries[n - 1].name@ == name {
        entries[n - 1].children@
    } else {
        entries_of(entries, name, n - 1)
    }
}

/// The position of the directory `name`, if there is one.
fn find_dir(entries: &Vec<Entry>, name: &str) -> (r: Option<usize>)
    ensures
        match r {
            Some(i) => i < entries.len() && entries_of(entries@, name@, entries@.len() as int)
                == entries@[i as int].children@,
            None => entries_of(entries@, name@, entries@.len() as int) == Seq::<Entry>::empty(),
        },
{
    let mut n: usize = entries.len();
    while 0 < n
        invariant
            n <= entries.len(),
            entries_of(entries@, name@, entries@.len() as int) == entries_of(
                entries@,
                name@,
                n as int,
            ),
        decreases n,
    {
        if matches!(entries[n - 1].kind, EntryKind::Dir) && same(entries[n - 1].name.as_str(), name) {
            return Some(n - 1);
        }
        n = n - 1;
    }
    None
}

/// The entries of the metadata directory of a vault.
pub open spec fn meta_entries(root: Seq<Entry>) -> Seq<Entry> {
    entries_of(root, ".lanmark"@, root.len() as int)
}

/// The entries of the trash of a vault.
pub open spec fn trash_entries(root: Seq<Entry>) -> Seq<Entry> {
    entries_of(meta_entries(root), "trash"@, meta_entries(root).len() as int)
}

/// How many entries the trash of a vault holds, and their bytes.
pub fn trash_usage(root: &Vec<Entry>) -> (r: (usize, u64))
    requires
        total_bytes(trash_entries(root@), trash_entries(root@).len() as int) <= u64::MAX,
    ensures
        r.0 == trash_entries(root@).len(),
        r.1 == total_bytes(trash_entries(root@), trash_entries(root@).len() as int),
{
    match find_dir(root, ".lanmark") {
        None => (0, 0),
        Some(i) => match find_dir(&root[i].children, "trash") {
            None => (0, 0),
            Some(j) => {
                let t = &root[i].children[j].children;
                (t.len(), dir_bytes(t))
            },
        },
    }
}

/// Whether machine integers can hold the figures of a vault.
pub open spec fn stats_fit(root: Seq<Entry>) -> bool {
    let t = tally(root, true, root.len() as int);
    let m = meta_entries(root);
    &&& t.fits()
    &&& t.bytes + total_bytes(m, m.len() as int) <= u64::MAX
}

proof fn lemma_entries_of(entries: Seq<Entry>, name: Seq<char>, n: int)
    requires
        0 <= n <= entries.len(),
    ensures
        total_bytes(
            entries_of(entries, name, n),
            entries_of(entries, name, n).len() as int,
        ) <= total_bytes(entries, n),
    decreases n,
{
    if n <= 0 {
    } else if entries[n - 1].kind == EntryKind::Dir && entries[n - 1].name@ == name {
    } else {
        lemma_entries_of(entries, name, n - 1);
    }
}

/// How large a vault is: its notes, folders and attachments, the bytes of
/// these and of its metadata, and what its trash holds.
pub fn vault_stats(root: &Vec<Entry>) -> (r: VaultStats)
    requires
        stats_fit(root@),
    ensures
        ({
            let t = tally(root@, true, root@.len() as int);
            let m = meta_entries(root@);
            let trash = trash_entries(root@);
            &&& r.notes == t.notes
            &&& r.folders == t.folders
            &&& r.assets == t.assets
            &&& r.bytes == t.bytes + total_bytes(m, m.len() as int)
            &&& r.trash_entries == trash.len()
            &&& r.trash_bytes == total_bytes(trash, trash.len() as int)
        }),
{
    let mut st = count(root, true);
    proof {
        let m = meta_entries(root@);
        lemma_entries_of(m, "trash"@, m.len() as int);
    }
    match find_dir(root, ".lanmark") {
        None => {},
        Some(i) => {
            st.bytes = st.bytes + dir_bytes(&root[i].children);
        },
    }
    let (n, bytes): (usize, u64) = trash_usage(root);
    st.trash_entries = n;
    st.trash_bytes = bytes;
    st
}

// ---------- the trash ----------

/// When an entry of the trash was deleted, by the number before the first
/// minus sign of its name.
pub open spec fn trash_time(name: Seq<char>) -> Option<int> {
    let p = name.take(text::first_index(name, '-'));
    if text::is_number(p) && 0 < text::number(p) <= i64::MAX {
        Some(text::number(p))
    } else {
        None
    }
}

/// When an entry of the trash was deleted, if its name says so.
pub fn trash_entry_ms(name: &str) -> (r: Option<i64>)
    ensures
        match r {
            Some(ms) => trash_time(name@) == Some(ms as int),
            None => trash_time(name@) is None,
        },
{
    let v = to_chars(name);
    assert(v@.skip(0) =~= v@);
    let i = text::find_char(&v, 0, '-');
    let p = text::from_range(&v, 0, i);
    assert(p@ =~= name@.take(i as int));
    if p.as_str().is_empty() || v[0] == '+' {
        assert(v@.len() > 0 ==> (v@[0] == '+' && i > 0 ==> p@[0] == '+'));
        return None;
    }
    assert(p@[0] == v@[0]);
    match text::parse_unsigned(p.as_str(), 0x7fff_ffff_ffff_ffff) {
        Some(n) => if n > 0 {
            Some(n as i64)
        } else {
            None
        },
        None => None,
    }
}

/// Whether the trash drops an entry: it was deleted more than `days` days ago.
/// An entry whose name does not say when is kept.
pub open spec fn is_old_trash(name: Seq<char>, days: u32, now: i64) -> bool {
    days != 0 && trash_time(name) is Some && trash_time(name)->0 < now - days * 86_400_000
}

/// The entries that the trash drops at `now`; with 0 days it drops none.
pub fn trash_prune(names: &Vec<String>, days: u32, now: i64) -> (r: Vec<String>)
    ensures
        text::views(r@) == text::views(names@).filter(|n: Seq<char>| is_old_trash(n, days, now)),
{
    let mut out: Vec<String> = Vec::new();
    let ghost g = |n: Seq<char>| is_old_trash(n, days, now);
    let cutoff: i128 = now as i128 - days as i128 * 86_400_000;
    let mut i: usize = 0;
    proof {
        reveal(Seq::filter);
        assert(text::views(names@).take(0).filter(g) =~= Seq::empty());
        assert(text::views(out@) =~= Seq::empty());
    }
    while i < names.len()
        invariant
            i <= names.len(),
            cutoff == now - days * 86_400_000,
            g == (|n: Seq<char>| is_old_trash(n, days, now)),
            text::views(out@) == text::views(names@).take(i as int).filter(g),
        decreases names.len() - i,
    {
        broadcast use text::lemma_views_push;
        proof {
            let s = text::views(names@);
            assert(s.take(i + 1) =~= s.take(i as int).push(s[i as int]));
            s.take(i as int).lemma_filter_push(s[i as int], g);
        }
        if days != 0 {
            if let Some(ms) = trash_entry_ms(names[i].as_str()) {
                if (ms as i128) < cutoff {
                    out.push(names[i].clone());
                }
            }
        }
        i = i + 1;
    }
    assert(text::views(names@).take(i as int) =~= text::views(names@));
    out
}

/// What the trash has no date for it never drops, whatever the settings.
pub proof fn law_undated_trash_is_kept(names: Seq<Seq<char>>, days: u32, now: i64, i: int)
    requires
        0 <= i < names.filter(|n: Seq<char>| is_old_trash(n, days, now)).len(),
    ensures
        days != 0,
        trash_time(names.filter(|n: Seq<char>| is_old_trash(n, days, now))[i]) is Some,
{
    let g = |n: Seq<char>| is_old_trash(n, days, now);
    names.lemma_filter_pred(g, i);
}

/// The name number `i` for an entry of the trash; number 1 is `base` itself.
pub open spec fn trash_name(base: Seq<char>, i: nat) -> Seq<char> {
    if i <= 1 {
        base
    } else {
        base + "-"@ + text::decimal(i)
    }
}

/// Whether name number `i` is the first that is not among `names`.
pub open spec fn is_first_trash_name(names: Seq<Seq<char>>, base: Seq<char>, i: nat) -> bool {
    &&& i >= 1
    &&& !names.contains(trash_name(base, i))
    &&& forall|j: nat| 1 <= j < i ==> names.contains(#[trigger] trash_name(base, j))
}

/// The names for one entry of the trash all differ.
pub proof fn law_trash_names_differ(base: Seq<char>, i: nat, j: nat)
    requires
        1 <= i,
        1 <= j,
        i != j,
    ensures
        trash_name(base, i) != trash_name(base, j),
{
    reveal_strlit("-");
    let lead = base + "-"@;
    let x = text::decimal(i);
    let y = text::decimal(j);
    text::lemma_number_of_decimal(i);
    text::lemma_number_of_decimal(j);
    if i > 1 && j > 1 && lead + x == lead + y {
        assert(x =~= (lead + x).skip(lead.len() as int));
        assert(y =~= (lead + y).skip(lead.len() as int));
    } else if i > 1 && j <= 1 {
        assert((lead + x).len() > base.len());
    } else if j > 1 && i <= 1 {
        assert((lead + y).len() > base.len());
    }
}

/// A list holds no more different texts than it has places.
proof fn lemma_distinct_fit(names: Seq<Seq<char>>, base: Seq<char>, n: nat)
    requires
        forall|j: nat| 1 <= j <= n ==> names.contains(#[trigger] trash_name(base, j)),
    ensures
        n <= names.len(),
{
    let seen = Seq::new(n, |k: int| trash_name(base, (k + 1) as nat));
    assert forall|a: int, b: int| 0 <= a < seen.len() && 0 <= b < seen.len() && a != b implies seen[a]
        != seen[b] by {
        law_trash_names_differ(base, (a + 1) as nat, (b + 1) as nat);
    }
    assert(seen.no_duplicates());
    seen.unique_seq_to_set();
    names.lemma_cardinality_of_set();
    assert(seen.to_set().subset_of(names.to_set())) by {
        assert forall|x: Seq<char>| seen.to_set().contains(x) implies names.to_set().contains(x) by {
            let k = choose|k: int| 0 <= k < seen.len() && seen[k] == x;
            assert(names.contains(trash_name(base, (k + 1) as nat)));
        }
    }
    vstd::seq_lib::seq_to_set_is_finite(names);
    vstd::set_lib::lemma_len_subset(seen.to_set(), names.to_set());
}

/// The name under which an entry goes into the trash: `base`, or with `-2`,
/// `-3` and so on where that is taken. `names` are the entries of the trash.
pub fn trash_unique_name(names: &Vec<String>, base: &str) -> (r: String)
    requires
        names@.len() + 2 <= u64::MAX,
    ensures
        exists|i: nat| #[trigger]
            is_first_trash_name(text::views(names@), base@, i) && r@ == trash_name(base@, i),
{
    let mut name: String = base.to_owned();
    let mut i: u64 = 1;
    while list_has(names, name.as_str())
        invariant
            1 <= i <= names@.len() + 1,
            names@.len() + 2 <= u64::MAX,
            name@ == trash_name(base@, i as nat),
            forall|j: nat|
                1 <= j < i ==> text::views(names@).contains(#[trigger] trash_name(base@, j)),
        decreases names@.len() + 2 - i,
    {
        proof {
            assert forall|j: nat| 1 <= j <= i implies text::views(names@).contains(
                #[trigger] trash_name(base@, j),
            ) by {}
            lemma_distinct_fit(text::views(names@), base@, i as nat);
        }
        i = i + 1;
        let n = decimal_u64(i);
        name = concat3(base, "-", n.as_str());
    }
    assert(is_first_trash_name(text::views(names@), base@, i as nat));
    name
}

/// Where an entry goes when it is deleted at `now_ms`: into the trash, under
/// its name behind the time. `names` are the entries of the trash. The path is
/// refused where it does not stay in the vault, and where it is the vault, which
/// cannot go into its own trash.
pub fn delete_entry(
    vault: &str,
    rel_path: &str,
    facts: &fs_ops::PathFacts,
    names: &Vec<String>,
    now_ms: i64,
) -> (r: Result<String, FsError>)
    requires
        names@.len() + 2 <= u64::MAX,
    ensures
        match fs_ops::resolved(vault@, rel_path@, facts.nearest, facts.canon_vault@) {
            Err(e) => r is Err && r->Err_0@ == e,
            Ok(_) => if fs_ops::is_vault_itself(rel_path@) {
                r is Err && r->Err_0@ == fs_ops::into_itself()
            } else {
                let base = text::decimal_int(now_ms as int) + "-"@ + fs_ops::entry_name(rel_path@);
                r is Ok && exists|i: nat| #[trigger]
                    is_first_trash_name(text::views(names@), base, i) && r->Ok_0@
                        == ".lanmark/trash"@ + "/"@ + trash_name(base, i)
            },
        },
{
    match fs_ops::resolve_in_vault(vault, rel_path, &facts.nearest, facts.canon_vault.as_str()) {
        Err(e) => Err(e),
        Ok(_) => {
            if fs_ops::names_vault(rel_path) {
                return Err(fs_ops::refuse_into_itself());
            }
            let (_dir, name) = fs_ops::parent_and_name(rel_path);
            let ms = decimal_i64(now_ms);
            let base = concat3(ms.as_str(), "-", name.as_str());
            let unique = trash_unique_name(names, base.as_str());
            Ok(concat3(".lanmark/trash", "/", unique.as_str()))
        },
    }
}

/// An entry that is deleted with its time can be found again by that time.
pub proof fn law_deleted_entries_are_dated(now_ms: int, name: Seq<char>, i: nat)
    requires
        0 < now_ms <= i64::MAX,
    ensures
        trash_time(trash_name(text::decimal_int(now_ms) + "-"@ + name, i)) == Some(now_ms),
{
    reveal_strlit("-");
    let d = text::decimal_int(now_ms);
    let full = trash_name(d + "-"@ + name, i);
    text::lemma_number_of_decimal(now_ms as nat);
    text::lemma_first_index(full, '-');
    let k = text::first_index(full, '-');
    assert(full[d.len() as int] == '-');
    assert forall|j: int| 0 <= j < d.len() implies full[j] != '-' by {
        assert(full[j] == d[j]);
        assert(text::is_digit(d[j]));
    }
    assert(k == d.len());
    assert(full.take(k) =~= d);
}

// ---------- the order of a list ----------

/// In a directory folders come before all else, and entries of one sort by name
/// without regard to case.
pub proof fn law_folders_come_first_then_names(a: Entry, b: Entry)
    ensures
        a.kind == EntryKind::Dir && b.kind == EntryKind::File ==> key_lt(sort_key(a), sort_key(b)) && !key_lt(
            sort_key(b),
            sort_key(a),
        ),
        a.kind == b.kind ==> (key_lt(sort_key(a), sort_key(b)) <==> text::lex_lt(
            text::lowercase(a.name@),
            text::lowercase(b.name@),
        )),
        a.kind == EntryKind::Unknown && b.kind != EntryKind::Dir && b.kind != EntryKind::Unknown ==> key_lt(
            sort_key(a),
            sort_key(b),
        ),
{
}

/// Whether the node at `i` stands under the folder at `j`: its path is that of
/// the folder and its name, and all between them lie in the folder.
pub open spec fn follows_its_folder(s: Seq<NodeView>, j: int, i: int) -> bool {
    &&& 0 <= j < i < s.len()
    &&& s[j].kind == "folder"@
    &&& s[i].path == s[j].path.push('/') + text::replaced(s[i].name, '\\', '/')
    &&& forall|k: int| j < k <= i ==> text::starts_with(#[trigger] s[k].path, s[j].path.push('/'))
}

/// Whether each node of a list lies in the directory `dir` itself or stands under
/// its folder.
spec fn nested(dir: Seq<char>, s: Seq<NodeView>) -> bool {
    forall|i: int|
        0 <= i < s.len() ==> (#[trigger] s[i]).path == text::replaced(under(dir, s[i].name), '\\', '/') || exists|
            j: int,
        |
            follows_its_folder(s, j, i)
}

spec fn all_below(dir: Seq<char>, s: Seq<NodeView>) -> bool {
    forall|i: int|
        0 <= i < s.len() && dir.len() > 0 ==> text::starts_with(
            (#[trigger] s[i]).path,
            text::replaced(dir, '\\', '/').push('/'),
        )
}

proof fn lemma_replaced_under(dir: Seq<char>, name: Seq<char>)
    ensures
        dir.len() > 0 ==> text::replaced(under(dir, name), '\\', '/') == text::replaced(dir, '\\', '/').push('/')
            + text::replaced(name, '\\', '/'),
        text::replaced(dir, '\\', '/').len() == dir.len(),
{
    if dir.len() > 0 {
        assert(text::replaced(under(dir, name), '\\', '/') =~= text::replaced(dir, '\\', '/').push('/')
            + text::replaced(name, '\\', '/'));
    }
}

proof fn lemma_starts_longer(s: Seq<char>, a: Seq<char>, name: Seq<char>)
    requires
        text::starts_with(s, (a.push('/') + name).push('/')),
    ensures
        text::starts_with(s, a.push('/')),
{
    let p = (a.push('/') + name).push('/');
    assert(s.take(a.len() as int + 1) =~= p.take(a.len() as int + 1));
    assert(p.take(a.len() as int + 1) =~= a.push('/'));
}

proof fn lemma_tree_is_nested(dir: Seq<char>, entries: Seq<Entry>, n: int)
    requires
        0 <= n <= entries.len(),
        all_named(entries),
    ensures
        nested(dir, tree_nodes(dir, entries, n)),
        all_below(dir, tree_nodes(dir, entries, n)),
    decreases entries, n,
{
    if n > 0 {
        lemma_tree_step(dir, entries, n);
        lemma_sorted_positions_range(entries, entries.len() as int);
        lemma_tree_is_nested(dir, entries, n - 1);
        let head = tree_nodes(dir, entries, n - 1);
        let part = tree_part(dir, entries, n - 1);
        let all = tree_nodes(dir, entries, n);
        let e = entries[sorted_positions(entries, entries.len() as int)[n - 1]];
        let path = under(dir, e.name@);
        let here = text::replaced(path, '\\', '/');
        assert(e.name@.len() > 0);
        assert(path.len() > 0);
        let h = head.len() as int;
        let sub = tree_nodes(path, e.children@, e.children@.len() as int);
        if e.kind == EntryKind::Dir {
            lemma_tree_is_nested(path, e.children@, e.children@.len() as int);
        }
        lemma_replaced_under(dir, e.name@);
        assert forall|i: int| 0 <= i < all.len() && dir.len() > 0 implies text::starts_with(
            (#[trigger] all[i]).path,
            text::replaced(dir, '\\', '/').push('/'),
        ) by {
            let d = text::replaced(dir, '\\', '/');
            if i < h {
                assert(all[i] == head[i]);
            } else if i == h {
                assert(all[i].path == here);
                assert(here.take(d.len() as int + 1) =~= d.push('/'));
            } else {
                assert(all[i] == sub[i - h - 1]);
                assert(text::starts_with(sub[i - h - 1].path, here.push('/')));
                lemma_starts_longer(all[i].path, d, text::replaced(e.name@, '\\', '/'));
            }
        }
        assert forall|i: int| 0 <= i < all.len() implies (#[trigger] all[i]).path == text::replaced(
            under(dir, all[i].name),
            '\\',
            '/',
        ) || exists|j: int| follows_its_folder(all, j, i) by {
            if i < h {
                assert(all[i] == head[i]);
                if head[i].path != text::replaced(under(dir, head[i].name), '\\', '/') {
                    let j = choose|j: int| follows_its_folder(head, j, i);
                    assert forall|k: int| j < k <= i implies text::starts_with(
                        #[trigger] all[k].path,
                        all[j].path.push('/'),
                    ) by {
                        assert(all[k] == head[k]);
                        assert(text::starts_with(head[k].path, head[j].path.push('/')));
                    }
                    assert(follows_its_folder(all, j, i));
                }
            } else if i > h {
                let m = i - h - 1;
                assert(all[i] == sub[m]);
                assert(all[h] == folder_node(path, e.name@));
                if sub[m].path == text::replaced(under(path, sub[m].name), '\\', '/') {
                    lemma_replaced_under(path, sub[m].name);
                    assert forall|k: int| h < k <= i implies text::starts_with(
                        #[trigger] all[k].path,
                        all[h].path.push('/'),
                    ) by {
                        assert(all[k] == sub[k - h - 1]);
                    }
                    assert(follows_its_folder(all, h, i));
                } else {
                    let j = choose|j: int| follows_its_folder(sub, j, m);
                    assert(all[j + h + 1] == sub[j]);
                    assert forall|k: int| j + h + 1 < k <= i implies text::starts_with(
                        #[trigger] all[k].path,
                        all[j + h + 1].path.push('/'),
                    ) by {
                        assert(all[k] == sub[k - h - 1]);
                        assert(text::starts_with(sub[k - h - 1].path, sub[j].path.push('/')));
                    }
                    assert(follows_its_folder(all, j + h + 1, i));
                }
            }
        }
    }
}

/// A folder is followed by what it holds before anything else comes: each node
/// of the list is an entry of the vault itself, or stands under its folder with
/// nothing but entries of that folder between them.
pub proof fn law_what_a_folder_holds_follows_it(root: &Vec<Entry>, r: Vec<Node>, i: int)
    requires
        call_ensures(list_tree, (root,), r),
        all_named(root@),
        0 <= i < r@.len(),
    ensures
        r@[i]@.path == text::replaced(r@[i]@.name, '\\', '/') || exists|j: int|
            follows_its_folder(text::views(r@), j, i),
{
    let s = text::views(r@);
    lemma_tree_is_nested(Seq::empty(), root@, root@.len() as int);
    assert(s[i] == r@[i]@);
}

// ---------- the attachments of an entry ----------

proof fn lemma_assets_part(dir: Seq<char>, entries: Seq<Entry>, n: int, x: Seq<char>)
    requires
        0 < n <= entries.len(),
    ensures
        asset_paths(dir, entries, n).contains(x) <==> asset_paths(dir, entries, n - 1).contains(x) || ({
            let e = entries[n - 1];
            let path = under(dir, e.name@);
            if e.kind == EntryKind::Dir {
                asset_paths(path, e.children@, e.children@.len() as int).contains(x)
            } else {
                e.kind == EntryKind::File && x == text::replaced(path, '\\', '/') && text::starts_with(
                    x,
                    "assets/"@,
                )
            }
        }),
{
    let e = entries[n - 1];
    let head = asset_paths(dir, entries, n - 1);
    lemma_below(dir, e.name@);
    let path = under(dir, e.name@);
    if e.kind == EntryKind::Dir {
        lemma_path_in_either(head, asset_paths(path, e.children@, e.children@.len() as int), x);
    } else {
        let one = seq![text::replaced(path, '\\', '/')];
        lemma_path_in_either(head, one, x);
        assert(head.push(one[0]) =~= head + one);
        if one.contains(x) {
            assert(one[0] == x);
        } else {
            assert(one[0] != x);
        }
    }
}

proof fn lemma_asset_chain(dir: Seq<char>, root: Seq<Entry>, chain: Seq<Entry>)
    requires
        leads_down(root, chain),
        forall|i: int| 0 <= i < chain.len() ==> (#[trigger] chain[i]).name@.len() > 0,
        chain.last().kind == EntryKind::File,
        text::starts_with(text::replaced(under(dir, chain_path(chain)), '\\', '/'), "assets/"@),
    ensures
        asset_paths(dir, root, root.len() as int).contains(
            text::replaced(under(dir, chain_path(chain)), '\\', '/'),
        ),
    decreases chain.len(),
{
    let e = chain[0];
    let x = text::replaced(under(dir, chain_path(chain)), '\\', '/');
    let k = choose|k: int| 0 <= k < root.len() && root[k] == e;
    lemma_chain_path(dir, chain);
    if chain.len() > 1 {
        lemma_chain_tail(root, chain);
        let rest = chain.drop_first();
        assert forall|i: int| 0 <= i < rest.len() implies (#[trigger] rest[i]).name@.len() > 0 by {
            assert(chain[i + 1].name@.len() > 0);
        }
        assert(rest.last() == chain.last());
        lemma_asset_chain(under(dir, e.name@), e.children@, rest);
    } else {
        assert(chain.last() == e);
    }
    lemma_assets_part(dir, root, k + 1, x);
    lemma_assets_stay(dir, root, k + 1, root.len() as int, x);
}

proof fn lemma_assets_stay(dir: Seq<char>, root: Seq<Entry>, k: int, n: int, x: Seq<char>)
    requires
        0 <= k <= n <= root.len(),
        asset_paths(dir, root, k).contains(x),
    ensures
        asset_paths(dir, root, n).contains(x),
    decreases n - k,
{
    if k < n {
        lemma_assets_part(dir, root, k + 1, x);
        lemma_assets_stay(dir, root, k + 1, n, x);
    }
}

proof fn lemma_asset_has_chain(dir: Seq<char>, root: Seq<Entry>, n: int, x: Seq<char>) -> (chain: Seq<Entry>)
    requires
        0 <= n <= root.len(),
        all_named(root),
        asset_paths(dir, root, n).contains(x),
    ensures
        leads_down(root, chain),
        chain.last().kind == EntryKind::File,
        x == text::replaced(under(dir, chain_path(chain)), '\\', '/'),
        text::starts_with(x, "assets/"@),
    decreases root, n,
{
    if n <= 0 {
        assert(false);
    }
    lemma_assets_part(dir, root, n, x);
    if asset_paths(dir, root, n - 1).contains(x) {
        lemma_asset_has_chain(dir, root, n - 1, x)
    } else {
        let e = root[n - 1];
        let one = seq![e];
        assert(root.contains(e));
        assert(e.name@.len() > 0);
        assert(one.last() == e);
        lemma_chain_path(dir, one);
        if e.kind == EntryKind::Dir {
            let rest = lemma_asset_has_chain(under(dir, e.name@), e.children@, e.children@.len() as int, x);
            lemma_chain_grows(root, e, rest);
            let all = one + rest;
            lemma_chain_path(dir, all);
            assert(all.last() == rest.last());
            all
        } else {
            one
        }
    }
}

/// The files of a folder that sync knows are the notes that the index lists and
/// the files on disk, however deep, whose path is in the directory of
/// attachments; in ascending order, and each once.
pub proof fn law_files_of_a_folder(
    vault: &str,
    rel: &str,
    facts: &fs_ops::PathFacts,
    notes: &Vec<String>,
    entries: &Vec<Entry>,
    r: Result<Vec<String>, FsError>,
    p: Seq<char>,
)
    requires
        call_ensures(entry_file_list, (vault, rel, facts, false, notes, entries), r),
        fs_ops::resolved(vault@, rel@, facts.nearest, facts.canon_vault@) is Ok,
        facts.is_dir,
        fs_ops::is_plain_dir(rel@),
        all_named(entries@),
    ensures
        r is Ok,
        text::views(r->Ok_0@).contains(p) <==> text::views(notes@).contains(p) || exists|chain: Seq<Entry>|
            {
                &&& #[trigger] leads_down(entries@, chain)
                &&& chain.last().kind == EntryKind::File
                &&& p == text::replaced(rel@.push('/') + chain_path(chain), '\\', '/')
                &&& text::starts_with(p, seq!['a', 's', 's', 'e', 't', 's', '/'])
            },
        forall|i: int, j: int|
            0 <= i < j < r->Ok_0@.len() ==> text::lex_lt((#[trigger] r->Ok_0@[i])@, (#[trigger] r->Ok_0@[j])@),
{
    reveal_strlit("assets/");
    assert("assets/"@ =~= seq!['a', 's', 's', 'e', 't', 's', '/']);
    assert(text::trimmed(rel@) == rel@);
    assert(fs_ops::strip_lead_dots(rel@) == rel@);
    let list = asset_paths(rel@, entries@, entries@.len() as int);
    if list.contains(p) {
        let chain = lemma_asset_has_chain(rel@, entries@, entries@.len() as int, p);
        assert(leads_down(entries@, chain));
    }
    assert forall|chain: Seq<Entry>|
        {
            &&& #[trigger] leads_down(entries@, chain)
            &&& chain.last().kind == EntryKind::File
            &&& p == text::replaced(rel@.push('/') + chain_path(chain), '\\', '/')
            &&& text::starts_with(p, "assets/"@)
        } implies list.contains(p) by {
        lemma_chain_named(entries@, chain);
        lemma_asset_chain(rel@, entries@, chain);
    }
    let s = text::views(r->Ok_0@);
    assert forall|i: int, j: int| 0 <= i < j < s.len() implies text::lex_lt(
        (#[trigger] r->Ok_0@[i])@,
        (#[trigger] r->Ok_0@[j])@,
    ) by {
        assert(text::lex_lt(s[i], s[j]));
    }
}

// ---------- the index and the disk ----------

/// After a reindex the index holds what is on disk: each note has a row with its
/// own path, text, time and hash, and a path goes out of the index exactly if no
/// note has it any more.
pub proof fn law_index_follows_the_disk(
    notes: &Vec<DiskNote>,
    indexed: &Vec<String>,
    r: Reindex,
    p: Seq<char>,
)
    requires
        call_ensures(reindex, (notes, indexed), r),
    ensures
        r.rows@.len() == notes@.len(),
        forall|i: int|
            0 <= i < notes@.len() ==> {
                let row = (#[trigger] r.rows@[i])@;
                &&& row.path == notes@[i].path@
                &&& row.body == text::lossy_text(notes@[i].bytes@)
                &&& row.mtime_ms == notes@[i].mtime_ms
                &&& row.hash == text::hex(crate::digest::sha256(notes@[i].bytes@))
                &&& row.title == (match fs_ops::frontmatter_title(text::lossy_text(notes@[i].bytes@)) {
                    Some(t) => t,
                    None => fs_ops::stem_of(notes@[i].path@),
                })
            },
        text::views(r.stale@).contains(p) <==> text::views(indexed@).contains(p) && !(exists|i: int|
            0 <= i < notes@.len() && (#[trigger] notes@[i]).path@ == p),
{
    let rows = text::views(r.rows@);
    assert(rows.len() == r.rows@.len());
    assert forall|i: int| 0 <= i < notes@.len() implies (#[trigger] r.rows@[i])@ == disk_row(notes@[i]) by {
        assert(rows[i] == r.rows@[i]@);
    }
    let f = |q: Seq<char>| !disk_paths(notes@).contains(q);
    let all = text::views(indexed@);
    let on_disk = disk_paths(notes@);
    if exists|i: int| 0 <= i < notes@.len() && (#[trigger] notes@[i]).path@ == p {
        let i = choose|i: int| 0 <= i < notes@.len() && (#[trigger] notes@[i]).path@ == p;
        assert(on_disk[i] == p);
    } else if on_disk.contains(p) {
        let i = choose|i: int| 0 <= i < on_disk.len() && on_disk[i] == p;
        assert(notes@[i].path@ == p);
    }
    if all.contains(p) && f(p) {
        let i = choose|i: int| 0 <= i < all.len() && all[i] == p;
        all.lemma_filter_contains(f, i);
    }
    if all.filter(f).contains(p) {
        let k = choose|k: int| 0 <= k < all.filter(f).len() && all.filter(f)[k] == p;
        all.lemma_filter_pred(f, k);
        all.lemma_filter_contains_rev(f, p);
    }
}

// ---------- figures ----------

proof fn lemma_figures_of_more(entries: Seq<Entry>, e: Entry, top: bool, n: int)
    requires
        0 <= n <= entries.len(),
    ensures
        tally(entries.push(e), top, n) == tally(entries, top, n),
        total_files(entries.push(e), n) == total_files(entries, n),
        total_bytes(entries.push(e), n) == total_bytes(entries, n),
    decreases n,
{
    if n > 0 {
        lemma_figures_of_more(entries, e, top, n - 1);
        assert(entries.push(e)[n - 1] == entries[n - 1]);
    }
}

/// Each entry counts once, for itself: a note as a note, any other file as an
/// attachment, each with its bytes; a folder as one and with what it holds; the
/// directory of attachments, at the top, only with the files that it holds.
/// Hidden entries, links and the like count for nothing.
pub proof fn law_each_entry_counts_once(entries: Seq<Entry>, e: Entry, top: bool)
    ensures
        ({
            let n = entries.len() as int;
            let before = tally(entries, top, n);
            let after = tally(entries.push(e), top, n + 1);
            let inside = tally(e.children@, false, e.children@.len() as int);
            let hidden = e.name@.len() > 0 && e.name@[0] == '.';
            let is_assets = top && e.name@ == "assets"@;
            let is_md = text::ends_with(text::lowercase(e.name@), ".md"@);
            &&& hidden || (e.kind != EntryKind::Dir && e.kind != EntryKind::File) ==> after == before
            &&& !hidden && e.kind == EntryKind::File ==> {
                &&& after.notes == before.notes + if is_md { 1nat } else { 0 }
                &&& after.assets == before.assets + if is_md { 0nat } else { 1 }
                &&& after.folders == before.folders
                &&& after.bytes == before.bytes + e.len
            }
            &&& !hidden && e.kind == EntryKind::Dir && !is_assets ==> {
                &&& after.notes == before.notes + inside.notes
                &&& after.assets == before.assets + inside.assets
                &&& after.folders == before.folders + 1 + inside.folders
                &&& after.bytes == before.bytes + inside.bytes
            }
            &&& !hidden && e.kind == EntryKind::Dir && is_assets ==> {
                &&& after.notes == before.notes
                &&& after.assets == before.assets + total_files(e.children@, e.children@.len() as int)
                &&& after.folders == before.folders
                &&& after.bytes == before.bytes + total_bytes(e.children@, e.children@.len() as int)
            }
        }),
{
    lemma_hidden(e.name@);
    lemma_figures_of_more(entries, e, top, entries.len() as int);
    assert(entries.push(e)[entries.len() as int] == e);
}

/// The size of a directory is that of the files in it at any depth, each once;
/// an empty one has none.
pub proof fn law_sizes_add_up(entries: Seq<Entry>, e: Entry)
    ensures
        ({
            let n = entries.len() as int;
            let m = e.children@.len() as int;
            &&& total_bytes(Seq::empty(), 0) == 0
            &&& total_files(Seq::empty(), 0) == 0
            &&& total_bytes(entries.push(e), n + 1) == total_bytes(entries, n) + if e.kind == EntryKind::File {
                e.len as nat
            } else if e.kind == EntryKind::Dir {
                total_bytes(e.children@, m)
            } else {
                0
            }
            &&& total_files(entries.push(e), n + 1) == total_files(entries, n) + if e.kind == EntryKind::File {
                1
            } else if e.kind == EntryKind::Dir {
                total_files(e.children@, m)
            } else {
                0
            }
        }),
{
    lemma_figures_of_more(entries, e, true, entries.len() as int);
    assert(entries.push(e)[entries.len() as int] == e);
}

proof fn lemma_only_entries_of(entries: Seq<Entry>, name: Seq<char>, i: int, n: int)
    requires
        0 <= i < n <= entries.len(),
        entries[i].kind == EntryKind::Dir,
        entries[i].name@ == name,
        forall|j: int| 0 <= j < entries.len() && j != i ==> (#[trigger] entries[j]).name@ != name,
    ensures
        entries_of(entries, name, n) == entries[i].children@,
    decreases n,
{
    if n - 1 > i {
        lemma_only_entries_of(entries, name, i, n - 1);
    }
}

/// The trash is what lies in `.lanmark/trash`: it is counted by its entries and
/// weighed with all below them.
pub proof fn law_trash_is_what_lies_there(root: &Vec<Entry>, r: (usize, u64), i: int, j: int)
    requires
        call_ensures(trash_usage, (root,), r),
        0 <= i < root@.len(),
        root@[i].kind == EntryKind::Dir,
        root@[i].name@ == ".lanmark"@,
        forall|k: int| 0 <= k < root@.len() && k != i ==> (#[trigger] root@[k]).name@ != ".lanmark"@,
        0 <= j < root@[i].children@.len(),
        root@[i].children@[j].kind == EntryKind::Dir,
        root@[i].children@[j].name@ == "trash"@,
        forall|k: int|
            0 <= k < root@[i].children@.len() && k != j ==> (#[trigger] root@[i].children@[k]).name@ != "trash"@,
    ensures
        ({
            let trash = root@[i].children@[j].children@;
            r.0 == trash.len() && r.1 == total_bytes(trash, trash.len() as int)
        }),
{
    lemma_only_entries_of(root@, ".lanmark"@, i, root@.len() as int);
    lemma_only_entries_of(root@[i].children@, "trash"@, j, root@[i].children@.len() as int);
}

// ---------- the trash ----------

/// The time of an entry of the trash is the number before its first hyphen; one
/// whose name starts otherwise has none.
pub proof fn law_trash_is_dated_by_its_name(ms: nat, rest: Seq<char>, name: Seq<char>)
    ensures
        0 < ms <= i64::MAX ==> trash_time(text::decimal(ms) + seq!['-'] + rest) == Some(ms as int),
        ms == 0 || ms > i64::MAX ==> trash_time(text::decimal(ms) + seq!['-'] + rest) is None,
        trash_time(name) is Some ==> name.len() > 0 && '0' <= name[0] <= '9',
{
    let d = text::decimal(ms);
    let full = d + seq!['-'] + rest;
    text::lemma_number_of_decimal(ms);
    text::lemma_first_index(full, '-');
    let k = text::first_index(full, '-');
    assert(full[d.len() as int] == '-');
    assert forall|j: int| 0 <= j < d.len() implies full[j] != '-' by {
        assert(full[j] == d[j]);
        assert(text::is_digit(d[j]));
    }
    assert(k == d.len());
    assert(full.take(k) =~= d);
    if trash_time(name) is Some {
        text::lemma_first_index(name, '-');
        let p = name.take(text::first_index(name, '-'));
        assert(text::is_digit(p[0]));
    }
}

/// What is pruned from the trash is exactly what is dated and older than the
/// days that it is kept; nothing is pruned where it is kept for ever.
pub proof fn law_only_old_trash_goes(names: &Vec<String>, days: u32, now: i64, r: Vec<String>, n: Seq<char>)
    requires
        call_ensures(trash_prune, (names, days, now), r),
    ensures
        text::views(r@).contains(n) <==> {
            &&& text::views(names@).contains(n)
            &&& days > 0
            &&& trash_time(n) matches Some(ms) && ms + days * 24 * 60 * 60 * 1000 < now
        },
{
    let f = |x: Seq<char>| is_old_trash(x, days, now);
    let all = text::views(names@);
    assert(days * 24 * 60 * 60 * 1000 == days * 86_400_000);
    if all.contains(n) && f(n) {
        let i = choose|i: int| 0 <= i < all.len() && all[i] == n;
        all.lemma_filter_contains(f, i);
    }
    if all.filter(f).contains(n) {
        let k = choose|k: int| 0 <= k < all.filter(f).len() && all.filter(f)[k] == n;
        all.lemma_filter_pred(f, k);
        all.lemma_filter_contains_rev(f, n);
    }
}

/// A deleted entry goes into the trash under its name behind the time, and with
/// a number where that is taken, so that it takes no place of another.
pub proof fn law_deleted_entry_is_in_the_trash(
    vault: &str,
    rel: &str,
    facts: &fs_ops::PathFacts,
    names: &Vec<String>,
    now_ms: i64,
    r: Result<String, FsError>,
    d: Seq<char>,
    n: Seq<char>,
)
    requires
        call_ensures(delete_entry, (vault, rel, facts, names, now_ms), r),
        fs_ops::resolved(vault@, rel@, facts.nearest, facts.canon_vault@) is Ok,
        d.len() == 0 || fs_ops::is_plain_dir(d),
        fs_ops::is_plain_name(n),
        !text::is_white(n[0]),
        !text::is_white(n.last()),
        rel@ == fs_ops::in_dir(d, n),
    ensures
        r is Ok,
        exists|i: nat| #[trigger]
            is_free_turn(text::views(names@), text::decimal_int(now_ms as int) + seq!['-'] + n, i) && r->Ok_0@
                == ".lanmark/trash/"@ + trash_turn(text::decimal_int(now_ms as int) + seq!['-'] + n, i),
{
    reveal_strlit("-");
    reveal_strlit("/");
    reveal_strlit(".lanmark/trash");
    reveal_strlit(".lanmark/trash/");
    assert("-"@ =~= seq!['-']);
    assert(".lanmark/trash/"@ =~= ".lanmark/trash"@ + "/"@);
    fs_ops::law_entry_lies_in_its_directory(d, n);
    let base = text::decimal_int(now_ms as int) + seq!['-'] + n;
    let all = text::views(names@);
    assert forall|i: nat| 1 <= i implies trash_name(base, i) == #[trigger] trash_turn(base, i) by {}
    let i = choose|i: nat| #[trigger]
        is_first_trash_name(all, base, i) && r->Ok_0@ == ".lanmark/trash"@ + "/"@ + trash_name(base, i);
    let name = trash_turn(base, i);
    assert(".lanmark/trash/"@ + name =~= ".lanmark/trash"@ + "/"@ + name);
    assert forall|j: nat| 1 <= j < i implies all.contains(#[trigger] trash_turn(base, j)) by {
        assert(all.contains(trash_name(base, j)));
    }
    assert(is_free_turn(all, base, i));
}

/// Whether the name in turn `i` is the first that is not taken.
pub open spec fn is_free_turn(names: Seq<Seq<char>>, base: Seq<char>, i: nat) -> bool {
    &&& i >= 1
    &&& !names.contains(trash_turn(base, i))
    &&& forall|j: nat| 1 <= j < i ==> names.contains(#[trigger] trash_turn(base, j))
}

/// The name that is tried in turn `i` for an entry of the trash.
pub open spec fn trash_turn(base: Seq<char>, i: nat) -> Seq<char> {
    if i <= 1 {
        base
    } else {
        base + seq!['-'] + text::decimal(i)
    }
}

// ---------- nothing is listed twice ----------

/// Whether the entries of each directory have names of their own, as on a disk: no
/// two are the same, none is empty, and none has a slash or a backslash in it.
pub open spec fn named_apart(entries: Seq<Entry>) -> bool
    decreases entries,
{
    &&& forall|i: int|
        #![trigger entries[i]]
        0 <= i < entries.len() ==> is_disk_name(entries[i].name@) && named_apart(entries[i].children@)
    &&& forall|i: int, j: int|
        0 <= i < j < entries.len() ==> (#[trigger] entries[i]).name@ != (#[trigger] entries[j]).name@
}

/// Whether a name can stand on a disk.
pub open spec fn is_disk_name(name: Seq<char>) -> bool {
    name.len() > 0 && forall|i: int| 0 <= i < name.len() ==> #[trigger] name[i] != '/' && name[i] != '\\'
}

/// Whether a path is that of an entry or of something below it.
spec fn of_entry(p: Seq<char>, base: Seq<char>) -> bool {
    p == base || text::starts_with(p, base.push('/'))
}

spec fn no_backslash(s: Seq<char>) -> bool {
    forall|i: int| 0 <= i < s.len() ==> #[trigger] s[i] != '\\'
}

proof fn lemma_under_clean(dir: Seq<char>, name: Seq<char>)
    requires
        no_backslash(dir),
        is_disk_name(name),
    ensures
        no_backslash(under(dir, name)),
        text::replaced(under(dir, name), '\\', '/') == under(dir, name),
{
    let s = under(dir, name);
    assert forall|i: int| 0 <= i < s.len() implies #[trigger] s[i] != '\\' by {
        if dir.len() == 0 {
            assert(s[i] == name[i]);
        } else if i < dir.len() {
            assert(s[i] == dir[i]);
        } else if i > dir.len() {
            assert(s[i] == name[i - dir.len() - 1]);
        }
    }
    text::law_replacing_changes_one_character(s, '\\', '/');
}

proof fn lemma_entries_apart(dir: Seq<char>, a: Seq<char>, b: Seq<char>, p: Seq<char>)
    requires
        is_disk_name(a),
        is_disk_name(b),
        a != b,
        a.len() <= b.len(),
        of_entry(p, under(dir, a)),
    ensures
        !of_entry(p, under(dir, b)),
{
    if of_entry(p, under(dir, b)) {
        let off = if dir.len() == 0 {
            0
        } else {
            dir.len() as int + 1
        };
        let x = under(dir, a);
        let y = under(dir, b);
        assert(p.len() >= y.len());
        assert forall|i: int| 0 <= i < x.len() implies p[i] == x[i] by {
            if p != x {
                assert(p.take(x.push('/').len() as int)[i] == x.push('/')[i]);
            }
        }
        assert forall|i: int| 0 <= i < y.len() implies p[i] == y[i] by {
            if p != y {
                assert(p.take(y.push('/').len() as int)[i] == y.push('/')[i]);
            }
        }
        assert forall|i: int| 0 <= i < a.len() implies a[i] == b[i] by {
            assert(x[off + i] == a[i]);
            assert(y[off + i] == b[i]);
        }
        if a.len() == b.len() {
            assert(a =~= b);
        } else {
            assert(p.take(x.push('/').len() as int)[x.len() as int] == '/');
            assert(p[x.len() as int] == '/');
            assert(y[off + a.len()] == b[a.len() as int]);
            assert(b[a.len() as int] != '/');
        }
    }
}

proof fn lemma_parts_apart(dir: Seq<char>, a: Seq<char>, b: Seq<char>, p: Seq<char>)
    requires
        is_disk_name(a),
        is_disk_name(b),
        a != b,
        of_entry(p, under(dir, a)),
    ensures
        !of_entry(p, under(dir, b)),
{
    if a.len() <= b.len() {
        lemma_entries_apart(dir, a, b, p);
    } else if of_entry(p, under(dir, b)) {
        lemma_entries_apart(dir, b, a, p);
    }
}

proof fn lemma_of_child(base: Seq<char>, name: Seq<char>, p: Seq<char>)
    requires
        base.len() > 0,
        of_entry(p, under(base, name)),
    ensures
        text::starts_with(p, base.push('/')),
        p != base,
{
    let q = under(base, name);
    assert(q.take(base.len() as int + 1) =~= base.push('/'));
    if p != q {
        let r = q.push('/');
        assert(p.take(base.len() as int + 1) =~= r.take(base.len() as int + 1));
        assert(r.take(base.len() as int + 1) =~= base.push('/'));
        assert(p.len() >= r.len());
    }
}

/// Whether the paths of a list differ, and each belongs to one of the first `n`
/// entries in the given order.
spec fn apart(dir: Seq<char>, entries: Seq<Entry>, order: Seq<int>, n: int, paths: Seq<Seq<char>>) -> bool {
    &&& paths.no_duplicates()
    &&& forall|i: int|
        0 <= i < paths.len() ==> exists|k: int|
            0 <= k < n && of_entry(#[trigger] paths[i], under(dir, (entries[#[trigger] order[k]]).name@))
}

proof fn lemma_apart_grows(
    dir: Seq<char>,
    entries: Seq<Entry>,
    order: Seq<int>,
    n: int,
    head: Seq<Seq<char>>,
    part: Seq<Seq<char>>,
)
    requires
        0 < n <= order.len(),
        order.len() == entries.len(),
        named_apart(entries),
        forall|k: int| 0 <= k < order.len() ==> 0 <= #[trigger] order[k] < entries.len(),
        order.no_duplicates(),
        apart(dir, entries, order, n - 1, head),
        part.no_duplicates(),
        forall|i: int|
            0 <= i < part.len() ==> of_entry(#[trigger] part[i], under(dir, entries[order[n - 1]].name@)),
    ensures
        apart(dir, entries, order, n, head + part),
{
    let all = head + part;
    assert forall|i: int, j: int| 0 <= i < all.len() && 0 <= j < all.len() && i < j implies all[i] != all[j] by {
        if j < head.len() {
            assert(head[i] != head[j]);
        } else if i >= head.len() {
            assert(part[i - head.len()] != part[j - head.len()]);
        } else {
            assert(all[i] == head[i]);
            assert(all[j] == part[j - head.len()]);
            let k = choose|k: int|
                0 <= k < n - 1 && of_entry(#[trigger] head[i], under(dir, (entries[#[trigger] order[k]]).name@));
            assert(order[k] != order[n - 1]);
            let a = entries[order[k]].name@;
            let b = entries[order[n - 1]].name@;
            assert(a != b) by {
                if order[k] < order[n - 1] {
                    assert(entries[order[k]].name@ != entries[order[n - 1]].name@);
                } else {
                    assert(entries[order[n - 1]].name@ != entries[order[k]].name@);
                }
            }
            if all[i] == all[j] {
                lemma_parts_apart(dir, a, b, all[i]);
            }
        }
    }
    assert forall|i: int, j: int| 0 <= i < all.len() && 0 <= j < all.len() && i != j implies all[i] != all[j] by {
        if i < j {
            assert(all[i] != all[j]);
        } else {
            assert(all[j] != all[i]);
        }
    }
    assert forall|i: int| 0 <= i < all.len() implies exists|k: int|
        0 <= k < n && of_entry(#[trigger] all[i], under(dir, (entries[#[trigger] order[k]]).name@)) by {
        if i < head.len() {
            assert(all[i] == head[i]);
            let k = choose|k: int|
                0 <= k < n - 1 && of_entry(#[trigger] head[i], under(dir, (entries[#[trigger] order[k]]).name@));
            assert(of_entry(all[i], under(dir, entries[order[k]].name@)));
        } else {
            assert(all[i] == part[i - head.len()]);
            assert(of_entry(all[i], under(dir, entries[order[n - 1]].name@)));
        }
    }
}

spec fn node_paths(s: Seq<NodeView>) -> Seq<Seq<char>> {
    s.map_values(|n: NodeView| n.path)
}

proof fn lemma_folder_apart(base: Seq<char>, sub: Seq<Seq<char>>, entries: Seq<Entry>, order: Seq<int>, n: int)
    requires
        base.len() > 0,
        apart(base, entries, order, n, sub),
    ensures
        (seq![base] + sub).no_duplicates(),
        forall|i: int| 0 <= i < (seq![base] + sub).len() ==> of_entry(#[trigger] (seq![base] + sub)[i], base),
        forall|i: int| 0 <= i < sub.len() ==> of_entry(#[trigger] sub[i], base),
{
    let all = seq![base] + sub;
    assert forall|i: int| 0 <= i < sub.len() implies #[trigger] sub[i] != base && of_entry(sub[i], base) by {
        let k = choose|k: int|
            0 <= k < n && of_entry(#[trigger] sub[i], under(base, (entries[#[trigger] order[k]]).name@));
        lemma_of_child(base, entries[order[k]].name@, sub[i]);
    }
    assert forall|i: int, j: int| 0 <= i < all.len() && 0 <= j < all.len() && i != j implies all[i] != all[j] by {
        if i == 0 {
            assert(all[j] == sub[j - 1]);
        } else if j == 0 {
            assert(all[i] == sub[i - 1]);
        } else {
            assert(sub[i - 1] != sub[j - 1]);
        }
    }
    assert forall|i: int| 0 <= i < all.len() implies of_entry(#[trigger] all[i], base) by {
        if i > 0 {
            assert(all[i] == sub[i - 1]);
        }
    }
}

proof fn lemma_tree_apart(dir: Seq<char>, entries: Seq<Entry>, n: int)
    requires
        0 <= n <= entries.len(),
        named_apart(entries),
        no_backslash(dir),
    ensures
        apart(
            dir,
            entries,
            sorted_positions(entries, entries.len() as int),
            n,
            node_paths(tree_nodes(dir, entries, n)),
        ),
    decreases entries, n,
{
    let order = sorted_positions(entries, entries.len() as int);
    if n > 0 {
        lemma_tree_apart(dir, entries, n - 1);
        lemma_tree_step(dir, entries, n);
        law_entries_are_sorted(entries);
        lemma_sorted_positions_range(entries, entries.len() as int);
        let e = entries[order[n - 1]];
        let base = under(dir, e.name@);
        assert(is_disk_name(e.name@));
        lemma_under_clean(dir, e.name@);
        let head = tree_nodes(dir, entries, n - 1);
        let part = tree_part(dir, entries, n - 1);
        let sub = tree_nodes(base, e.children@, e.children@.len() as int);
        if is_shown(e) && e.kind == EntryKind::Dir {
            lemma_tree_apart(base, e.children@, e.children@.len() as int);
            lemma_folder_apart(
                base,
                node_paths(sub),
                e.children@,
                sorted_positions(e.children@, e.children@.len() as int),
                e.children@.len() as int,
            );
            assert(node_paths(part) =~= seq![base] + node_paths(sub));
        } else if is_shown(e) && fs_ops::is_note(e.name@) {
            assert(node_paths(part) =~= seq![base]);
        } else {
            assert(node_paths(part) =~= Seq::<Seq<char>>::empty());
        }
        lemma_apart_grows(dir, entries, order, n, node_paths(head), node_paths(part));
        assert(node_paths(head + part) =~= node_paths(head) + node_paths(part));
    } else {
        assert(node_paths(tree_nodes(dir, entries, n)) =~= Seq::<Seq<char>>::empty());
    }
}

spec fn in_turn(n: int) -> Seq<int> {
    Seq::new(n as nat, |i: int| i)
}

proof fn lemma_notes_apart(dir: Seq<char>, entries: Seq<Entry>, n: int)
    requires
        0 <= n <= entries.len(),
        named_apart(entries),
        no_backslash(dir),
    ensures
        apart(dir, entries, in_turn(entries.len() as int), n, note_paths(dir, entries, n)),
    decreases entries, n,
{
    let order = in_turn(entries.len() as int);
    if n > 0 {
        lemma_notes_apart(dir, entries, n - 1);
        lemma_notes_step(dir, entries, n);
        let e = entries[n - 1];
        let base = under(dir, e.name@);
        assert(order[n - 1] == n - 1);
        assert(is_disk_name(e.name@));
        lemma_under_clean(dir, e.name@);
        let part = notes_part(dir, entries, n - 1);
        if dotted(e.name@) || e.kind == EntryKind::Unknown || e.kind == EntryKind::Symlink {
        } else if e.kind == EntryKind::Dir {
            lemma_notes_apart(base, e.children@, e.children@.len() as int);
            lemma_folder_apart(
                base,
                part,
                e.children@,
                in_turn(e.children@.len() as int),
                e.children@.len() as int,
            );
        } else if fs_ops::is_note(e.name@) {
            assert(part =~= seq![base]);
        }
        lemma_apart_grows(dir, entries, order, n, note_paths(dir, entries, n - 1), part);
    }
}

/// On a disk where the entries of each directory have names of their own, no entry
/// is listed twice, and no note is indexed twice.
pub proof fn law_nothing_is_listed_twice(root: &Vec<Entry>, nodes: Vec<Node>, notes: Vec<String>)
    requires
        call_ensures(list_tree, (root,), nodes),
        call_ensures(collect_notes, (root,), notes),
        named_apart(root@),
    ensures
        forall|i: int, j: int|
            0 <= i < j < nodes@.len() ==> (#[trigger] nodes@[i])@.path != (#[trigger] nodes@[j])@.path,
        forall|i: int, j: int| 0 <= i < j < notes@.len() ==> (#[trigger] notes@[i])@ != (#[trigger] notes@[j])@,
{
    let none = Seq::<char>::empty();
    lemma_tree_apart(none, root@, root@.len() as int);
    lemma_notes_apart(none, root@, root@.len() as int);
    let a = node_paths(text::views(nodes@));
    let b = text::views(notes@);
    assert forall|i: int, j: int| 0 <= i < j < nodes@.len() implies (#[trigger] nodes@[i])@.path != (
    #[trigger] nodes@[j])@.path by {
        assert(a[i] == nodes@[i]@.path && a[j] == nodes@[j]@.path);
        assert(a[i] != a[j]);
    }
    assert forall|i: int, j: int| 0 <= i < j < notes@.len() implies (#[trigger] notes@[i])@ != (
    #[trigger] notes@[j])@ by {
        assert(b[i] == notes@[i]@ && b[j] == notes@[j]@);
        assert(b[i] != b[j]);
    }
}

/// The time of an entry of the trash is what stands before its first hyphen, or
/// its whole name where it has none; it has to be a number of milliseconds.
pub proof fn law_trash_time_is_the_first_part(p: Seq<char>, rest: Seq<char>)
    requires
        forall|i: int| 0 <= i < p.len() ==> #[trigger] p[i] != '-',
    ensures
        trash_time(p) == trash_time(p + seq!['-'] + rest),
        trash_time(p) is Some <==> p.len() > 0 && (forall|i: int| 0 <= i < p.len() ==> '0' <= #[trigger] p[i] <= '9')
            && 0 < text::number(p) <= i64::MAX,
        trash_time(p) matches Some(ms) ==> ms == text::number(p),
{
    let s = p + seq!['-'] + rest;
    text::lemma_first_index(p, '-');
    text::lemma_first_index(s, '-');
    assert(s[p.len() as int] == '-');
    if text::first_index(s, '-') < p.len() {
        assert(p[text::first_index(s, '-')] != '-');
    }
    if text::first_index(p, '-') < p.len() {
        assert(p[text::first_index(p, '-')] != '-');
    }
    assert(s.take(p.len() as int) =~= p);
    assert(p.take(p.len() as int) =~= p);
    assert(text::is_number(p) <==> p.len() > 0 && forall|i: int|
        0 <= i < p.len() ==> '0' <= #[trigger] p[i] <= '9') by {
        if text::is_number(p) {
            assert forall|i: int| 0 <= i < p.len() implies '0' <= #[trigger] p[i] <= '9' by {
                assert(text::is_digit(p[i]));
            }
        }
        if p.len() > 0 && forall|i: int| 0 <= i < p.len() ==> '0' <= #[trigger] p[i] <= '9' {
            assert forall|i: int| 0 <= i < p.len() implies text::is_digit(#[trigger] p[i]) by {}
        }
    }
}

} // verus!
