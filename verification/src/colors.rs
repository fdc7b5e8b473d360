//! The colours of folders, kept per device under the path of the folder.
use vstd::prelude::*;

use crate::fs_ops;
use crate::fs_ops::{rel_to_string, resolve_in_vault, FsError, FsErrorKind, PathFacts};
use crate::strmap::StrMap;
use crate::text;
use crate::text::{concat, concat3, debug_str, has_prefix, same, strip_prefix};

verus! {

/// The file that holds the colours.
pub const FOLDER_COLORS_FILE: &'static str = "folder-colors.json";

/// Whether a colour is one of the palette. No colour, or the empty one, takes
/// the colour off.
pub open spec fn is_color(c: Option<Seq<char>>) -> bool {
    match c {
        None => true,
        Some(t) => t.len() == 0 || t == "fd1"@ || t == "fd2"@ || t == "fd3"@,
    }
}

/// Whether a colour is one of the palette.
pub fn is_valid_color_token(c: Option<&str>) -> (r: bool)
    ensures
        r == is_color(text::opt_str(c)),
{
    match c {
        None => true,
        Some(t) => t.is_empty() || same(t, "fd1") || same(t, "fd2") || same(t, "fd3"),
    }
}

/// What `set_folder_color` makes of the colours, or why it refuses.
pub open spec fn colored(
    colors: Map<Seq<char>, Seq<char>>,
    vault: Seq<char>,
    rel: Seq<char>,
    color: Option<Seq<char>>,
    facts: PathFacts,
) -> Result<Map<Seq<char>, Seq<char>>, fs_ops::FsErrorView> {
    let key = text::replaced(rel, '\\', '/');
    if !is_color(color) {
        Err(
            fs_ops::fs_error(
                FsErrorKind::InvalidInput,
                "未知颜色 token: Some("@ + text::debug_text(color->0) + ")"@,
            ),
        )
    } else {
        match fs_ops::resolved(vault, rel, facts.nearest, facts.canon_vault@) {
            Err(e) => Err(e),
            Ok(_) => if !facts.is_dir {
                Err(fs_ops::fs_error(FsErrorKind::InvalidInput, "仅目录可设置颜色"@))
            } else if color is None || color->0.len() == 0 {
                Ok(colors.remove(key))
            } else {
                Ok(colors.insert(key, color->0))
            },
        }
    }
}

/// Gives a folder a colour of the palette, or takes it off. Only a folder of
/// the vault can have one.
pub fn set_folder_color(
    colors: &mut StrMap<String>,
    vault: &str,
    rel: &str,
    color: Option<&str>,
    facts: &PathFacts,
) -> (r: Result<(), FsError>)
    requires
        old(colors).wf(),
    ensures
        final(colors).wf(),
        match colored(old(colors)@, vault@, rel@, text::opt_str(color), *facts) {
            Ok(m) => r is Ok && final(colors)@ == m,
            Err(e) => r is Err && r->Err_0@ == e && final(colors)@ == old(colors)@,
        },
{
    if !is_valid_color_token(color) {
        match color {
            Some(t) => {
                let d = debug_str(t);
                let m = concat3("未知颜色 token: Some(", d.as_str(), ")");
                return Err(FsError::new(FsErrorKind::InvalidInput, m.as_str()));
            },
            None => {},
        }
    }
    match resolve_in_vault(vault, rel, &facts.nearest, facts.canon_vault.as_str()) {
        Err(e) => {
            return Err(e);
        },
        Ok(_) => {},
    }
    if !facts.is_dir {
        return Err(FsError::new(FsErrorKind::InvalidInput, "仅目录可设置颜色"));
    }
    let key = rel_to_string(rel);
    match color {
        None => {
            colors.remove(key.as_str());
        },
        Some(t) => {
            if t.is_empty() {
                colors.remove(key.as_str());
            } else {
                colors.insert(key, t.to_owned());
            }
        },
    }
    Ok(())
}

/// The key that `k` becomes when `old` is renamed to `new`: that of the folder
/// itself and of every folder below it.
pub open spec fn moved_key(k: Seq<char>, old_rel: Seq<char>, new_rel: Seq<char>) -> Option<Seq<char>> {
    if k == old_rel {
        Some(new_rel)
    } else if text::starts_with(k, old_rel + "/"@) {
        Some(new_rel + "/"@ + k.skip((old_rel + "/"@).len() as int))
    } else {
        None
    }
}

/// The colours after the keys `keys` were moved one after the other.
pub open spec fn moved_colors(
    colors: Map<Seq<char>, Seq<char>>,
    keys: Seq<Seq<char>>,
    old_rel: Seq<char>,
    new_rel: Seq<char>,
) -> Map<Seq<char>, Seq<char>>
    decreases keys.len(),
{
    if keys.len() == 0 {
        colors
    } else {
        let m = moved_colors(colors, keys.drop_last(), old_rel, new_rel);
        match moved_key(keys.last(), old_rel, new_rel) {
            Some(k) => m.remove(keys.last()).insert(k, m[keys.last()]),
            None => m,
        }
    }
}

/// A key that was not looked at yet is still there.
proof fn lemma_unmoved_key_stays(
    colors: Map<Seq<char>, Seq<char>>,
    keys: Seq<Seq<char>>,
    old_rel: Seq<char>,
    new_rel: Seq<char>,
    k: Seq<char>,
)
    requires
        colors.dom().contains(k),
        !keys.contains(k),
    ensures
        moved_colors(colors, keys, old_rel, new_rel).dom().contains(k),
    decreases keys.len(),
{
    if keys.len() > 0 {
        assert(keys.last() != k) by {
            assert(keys[keys.len() - 1] == keys.last());
        }
        assert(!keys.drop_last().contains(k)) by {
            if keys.drop_last().contains(k) {
                let i = choose|i: int| 0 <= i < keys.drop_last().len() && keys.drop_last()[i] == k;
                assert(keys[i] == k);
            }
        }
        lemma_unmoved_key_stays(colors, keys.drop_last(), old_rel, new_rel, k);
    }
}

/// Moves the colours of a renamed folder and of all folders below it to their
/// new paths. Says whether there were any.
pub fn migrate_folder_colors(colors: &mut StrMap<String>, old_rel: &str, new_rel: &str) -> (changed: bool)
    requires
        old(colors).wf(),
    ensures
        final(colors).wf(),
        final(colors)@ == moved_colors(
            old(colors)@,
            old(colors).keys(),
            text::replaced(old_rel@, '\\', '/'),
            text::replaced(new_rel@, '\\', '/'),
        ),
        changed == exists|i: int|
            0 <= i < old(colors).keys().len() && moved_key(
                #[trigger] old(colors).keys()[i],
                text::replaced(old_rel@, '\\', '/'),
                text::replaced(new_rel@, '\\', '/'),
            ) is Some,
{
    let from = rel_to_string(old_rel);
    let to = rel_to_string(new_rel);
    let prefix = concat(from.as_str(), "/");
    let ghost keys = colors.keys();
    let ghost start = colors@;
    let mut list: Vec<String> = Vec::new();
    let n = colors.len();
    let mut i: usize = 0;
    proof {
        colors.lemma_keys();
        assert(text::views(list@) =~= keys.take(0));
    }
    while i < n
        invariant
            i <= n,
            n == colors.keys().len(),
            keys == colors.keys(),
            text::views(list@) == keys.take(i as int),
        decreases n - i,
    {
        broadcast use text::lemma_views_push;
        list.push(colors.key_at(i).clone());
        i = i + 1;
        assert(keys.take(i as int) =~= keys.take(i - 1).push(keys[i - 1]));
    }
    assert(keys.take(n as int) =~= keys);
    let mut changed: bool = false;
    let mut j: usize = 0;
    assert(keys.take(0) =~= Seq::empty());
    while j < list.len()
        invariant
            j <= list.len(),
            colors.wf(),
            text::views(list@) == keys,
            keys.no_duplicates(),
            forall|k: Seq<char>| #[trigger] start.dom().contains(k) <==> keys.contains(k),
            from@ == text::replaced(old_rel@, '\\', '/'),
            to@ == text::replaced(new_rel@, '\\', '/'),
            prefix@ == from@ + "/"@,
            colors@ == moved_colors(start, keys.take(j as int), from@, to@),
            changed == exists|i: int|
                0 <= i < j && moved_key(#[trigger] keys[i], from@, to@) is Some,
        decreases list.len() - j,
    {
        let k = &list[j];
        proof {
            assert(keys[j as int] == k@);
            assert(keys.take(j + 1).drop_last() =~= keys.take(j as int));
            assert(keys.take(j + 1).last() == k@);
            assert(!keys.take(j as int).contains(k@)) by {
                if keys.take(j as int).contains(k@) {
                    let a = choose|a: int|
                        0 <= a < keys.take(j as int).len() && keys.take(j as int)[a] == k@;
                    assert(keys[a] == keys[j as int]);
                }
            }
            assert(keys.contains(k@));
            lemma_unmoved_key_stays(start, keys.take(j as int), from@, to@, k@);
        }
        let mapped: Option<String> = if same(k.as_str(), from.as_str()) {
            Some(to.clone())
        } else {
            match strip_prefix(k.as_str(), prefix.as_str()) {
                Some(rest) => Some(concat3(to.as_str(), "/", rest.as_str())),
                None => None,
            }
        };
        assert(text::opt_view(mapped) == moved_key(k@, from@, to@));
        let ghost was = changed;
        match mapped {
            Some(nk) => {
                let v: String = match colors.get(k.as_str()) {
                    Some(v) => v.clone(),
                    None => String::new(),
                };
                colors.remove(k.as_str());
                colors.insert(nk, v);
                changed = true;
                assert(moved_key(keys[j as int], from@, to@) is Some);
            },
            None => {},
        }
        proof {
            if was {
                let i = choose|i: int|
                    0 <= i < j && moved_key(#[trigger] keys[i], from@, to@) is Some;
                assert(0 <= i < j + 1 && moved_key(keys[i], from@, to@) is Some);
            }
        }
        j = j + 1;
    }
    assert(keys.take(j as int) =~= keys);
    changed
}

/// Where a rename does not lead into the folder itself nor onto a folder that
/// has a colour, every folder takes its colour along and no other changes.
pub proof fn law_colors_move_with_their_folder(
    colors: Map<Seq<char>, Seq<char>>,
    keys: Seq<Seq<char>>,
    old_rel: Seq<char>,
    new_rel: Seq<char>,
    k: Seq<char>,
)
    requires
        keys.no_duplicates(),
        forall|x: Seq<char>| #[trigger] colors.dom().contains(x) <==> keys.contains(x),
        forall|x: Seq<char>| #[trigger]
            colors.dom().contains(x) ==> !targeted(x, old_rel, new_rel, keys),
        colors.dom().contains(k),
    ensures
        match moved_key(k, old_rel, new_rel) {
            Some(n) => {
                &&& moved_colors(colors, keys, old_rel, new_rel).dom().contains(n)
                &&& moved_colors(colors, keys, old_rel, new_rel)[n] == colors[k]
                &&& !moved_colors(colors, keys, old_rel, new_rel).dom().contains(k)
            },
            None => {
                &&& moved_colors(colors, keys, old_rel, new_rel).dom().contains(k)
                &&& moved_colors(colors, keys, old_rel, new_rel)[k] == colors[k]
            },
        },
{
    lemma_moved(colors, keys, old_rel, new_rel, keys.len() as int, k);
    assert(keys.take(keys.len() as int) =~= keys);
    assert(keys.contains(k));
}

/// Whether one of `keys` moves to `x`.
pub open spec fn targeted(
    x: Seq<char>,
    old_rel: Seq<char>,
    new_rel: Seq<char>,
    keys: Seq<Seq<char>>,
) -> bool {
    exists|i: int|
        0 <= i < keys.len() && moved_key(#[trigger] keys[i], old_rel, new_rel) == Some(x)
}

/// Different keys move to different keys.
proof fn lemma_moved_key_injective(
    a: Seq<char>,
    b: Seq<char>,
    old_rel: Seq<char>,
    new_rel: Seq<char>,
)
    requires
        a != b,
        moved_key(a, old_rel, new_rel) is Some,
        moved_key(b, old_rel, new_rel) is Some,
    ensures
        moved_key(a, old_rel, new_rel) != moved_key(b, old_rel, new_rel),
{
    reveal_strlit("/");
    let p = old_rel + "/"@;
    let q = new_rel + "/"@;
    let n = p.len() as int;
    if a != old_rel && b != old_rel {
        if q + a.skip(n) == q + b.skip(n) {
            assert(a.skip(n) =~= (q + a.skip(n)).skip(q.len() as int));
            assert(b.skip(n) =~= (q + b.skip(n)).skip(q.len() as int));
            assert(a =~= a.take(n) + a.skip(n));
            assert(b =~= b.take(n) + b.skip(n));
        }
    } else if a == old_rel {
        assert((q + b.skip(n)).len() > new_rel.len());
    } else {
        assert((q + a.skip(n)).len() > new_rel.len());
    }
}

proof fn lemma_moved(
    colors: Map<Seq<char>, Seq<char>>,
    keys: Seq<Seq<char>>,
    old_rel: Seq<char>,
    new_rel: Seq<char>,
    n: int,
    k: Seq<char>,
)
    requires
        0 <= n <= keys.len(),
        keys.no_duplicates(),
        forall|x: Seq<char>| #[trigger] colors.dom().contains(x) <==> keys.contains(x),
        forall|x: Seq<char>| #[trigger]
            colors.dom().contains(x) ==> !targeted(x, old_rel, new_rel, keys),
        colors.dom().contains(k),
    ensures
        ({
            let m = moved_colors(colors, keys.take(n), old_rel, new_rel);
            if keys.take(n).contains(k) && moved_key(k, old_rel, new_rel) is Some {
                let x = moved_key(k, old_rel, new_rel)->0;
                &&& m.dom().contains(x)
                &&& m[x] == colors[k]
                &&& !m.dom().contains(k)
            } else {
                &&& m.dom().contains(k)
                &&& m[k] == colors[k]
            }
        }),
    decreases n,
{
    if n > 0 {
        let l = keys[n - 1];
        let before = keys.take(n - 1);
        assert(keys.take(n).drop_last() =~= before);
        assert(keys.take(n).last() == l);
        lemma_moved(colors, keys, old_rel, new_rel, n - 1, k);
        assert(keys.contains(l));
        assert(colors.dom().contains(l));
        lemma_moved(colors, keys, old_rel, new_rel, n - 1, l);
        assert(!before.contains(l)) by {
            if before.contains(l) {
                let a = choose|a: int| 0 <= a < before.len() && before[a] == l;
                assert(keys[a] == keys[n - 1]);
            }
        }
        assert(keys.take(n).contains(k) == (before.contains(k) || k == l)) by {
            if keys.take(n).contains(k) {
                let a = choose|a: int| 0 <= a < n && keys.take(n)[a] == k;
                if a < n - 1 {
                    assert(before[a] == k);
                }
            }
            if before.contains(k) {
                let a = choose|a: int| 0 <= a < before.len() && before[a] == k;
                assert(keys.take(n)[a] == k);
            }
            if k == l {
                assert(keys.take(n)[n - 1] == k);
            }
        }
        if moved_key(l, old_rel, new_rel) is Some {
            let y = moved_key(l, old_rel, new_rel)->0;
            assert(targeted(y, old_rel, new_rel, keys)) by {
                assert(moved_key(keys[n - 1], old_rel, new_rel) == Some(y));
            }
            assert(y != k);
            if k != l && moved_key(k, old_rel, new_rel) is Some {
                lemma_moved_key_injective(k, l, old_rel, new_rel);
                let x = moved_key(k, old_rel, new_rel)->0;
                if before.contains(k) {
                    let a = choose|a: int| 0 <= a < before.len() && before[a] == k;
                    assert(keys[a] == k);
                    assert(targeted(x, old_rel, new_rel, keys)) by {
                        assert(moved_key(keys[a], old_rel, new_rel) == Some(x));
                    }
                    assert(x != l);
                }
            }
        }
    }
}

/// The key that `k` has once the folders of `keys` were moved.
spec fn place_of(k: Seq<char>, keys: Seq<Seq<char>>, old_rel: Seq<char>, new_rel: Seq<char>) -> Seq<char> {
    if keys.contains(k) && moved_key(k, old_rel, new_rel) is Some {
        moved_key(k, old_rel, new_rel)->0
    } else {
        k
    }
}

/// Whether `x` is where a key of `colors` has come to.
spec fn has_origin(
    colors: Map<Seq<char>, Seq<char>>,
    keys: Seq<Seq<char>>,
    old_rel: Seq<char>,
    new_rel: Seq<char>,
    x: Seq<char>,
) -> bool {
    exists|k: Seq<char>| #[trigger]
        colors.dom().contains(k) && x == place_of(k, keys, old_rel, new_rel)
}

proof fn lemma_origin(
    colors: Map<Seq<char>, Seq<char>>,
    keys: Seq<Seq<char>>,
    old_rel: Seq<char>,
    new_rel: Seq<char>,
    n: int,
    x: Seq<char>,
)
    requires
        0 <= n <= keys.len(),
        keys.no_duplicates(),
        forall|y: Seq<char>| #[trigger] colors.dom().contains(y) <==> keys.contains(y),
        moved_colors(colors, keys.take(n), old_rel, new_rel).dom().contains(x),
    ensures
        has_origin(colors, keys.take(n), old_rel, new_rel, x),
    decreases n,
{
    if n == 0 {
        assert(place_of(x, keys.take(0), old_rel, new_rel) == x);
    } else {
        let l = keys[n - 1];
        let before = keys.take(n - 1);
        let now = keys.take(n);
        assert(now.drop_last() =~= before);
        assert(now.last() == l);
        assert(now =~= before.push(l));
        assert(keys.contains(l));
        assert(!before.contains(l)) by {
            if before.contains(l) {
                let a = choose|a: int| 0 <= a < before.len() && before[a] == l;
                assert(keys[a] == keys[n - 1]);
            }
        }
        assert(now.contains(l)) by {
            assert(now[n - 1] == l);
        }
        let to = moved_key(l, old_rel, new_rel);
        if to is Some && x == to->0 {
            assert(colors.dom().contains(l));
            assert(place_of(l, now, old_rel, new_rel) == x);
        } else {
            assert(to is Some ==> x != l);
            lemma_origin(colors, keys, old_rel, new_rel, n - 1, x);
            let k = choose|k: Seq<char>| #[trigger]
                colors.dom().contains(k) && x == place_of(k, before, old_rel, new_rel);
            assert(k != l ==> (now.contains(k) <==> before.contains(k))) by {
                if now.contains(k) && k != l {
                    let a = choose|a: int| 0 <= a < now.len() && now[a] == k;
                    assert(before[a] == k);
                }
                if before.contains(k) {
                    let a = choose|a: int| 0 <= a < before.len() && before[a] == k;
                    assert(now[a] == k);
                }
            }
            assert(place_of(k, now, old_rel, new_rel) == x);
        }
    }
}

/// A rename brings no key but those that it moves or leaves: where a colour is
/// afterwards, a folder with that colour has moved there or stayed there. A
/// sibling whose name only begins alike stays.
pub proof fn law_moving_adds_no_color(
    colors: Map<Seq<char>, Seq<char>>,
    keys: Seq<Seq<char>>,
    old_rel: Seq<char>,
    new_rel: Seq<char>,
    x: Seq<char>,
)
    requires
        keys.no_duplicates(),
        forall|y: Seq<char>| #[trigger] colors.dom().contains(y) <==> keys.contains(y),
        forall|y: Seq<char>| #[trigger]
            colors.dom().contains(y) ==> !targeted(y, old_rel, new_rel, keys),
        moved_colors(colors, keys, old_rel, new_rel).dom().contains(x),
    ensures
        exists|k: Seq<char>| #[trigger]
            colors.dom().contains(k) && moved_colors(colors, keys, old_rel, new_rel)[x] == colors[k] && match moved_key(
                k,
                old_rel,
                new_rel,
            ) {
                Some(y) => x == y,
                None => x == k,
            },
{
    assert(keys.take(keys.len() as int) =~= keys);
    lemma_origin(colors, keys, old_rel, new_rel, keys.len() as int, x);
    let k = choose|k: Seq<char>| #[trigger]
        colors.dom().contains(k) && x == place_of(k, keys, old_rel, new_rel);
    law_colors_move_with_their_folder(colors, keys, old_rel, new_rel, k);
    assert(colors.dom().contains(k));
}

/// A path that lies in two folders shows that one of them lies in the other.
proof fn lemma_under_both(x: Seq<char>, a: Seq<char>, b: Seq<char>)
    requires
        is_under(x, a),
        is_under(x, b),
    ensures
        is_under(a, b) || is_under(b, a),
{
    reveal_strlit("/");
    if x != a && x != b {
        let p = a + "/"@;
        let q = b + "/"@;
        assert(x.take(p.len() as int) == p);
        assert(x.take(q.len() as int) == q);
        if a.len() == b.len() {
            assert(p == q);
            assert(a =~= p.take(a.len() as int));
            assert(b =~= q.take(b.len() as int));
        } else if a.len() < b.len() {
            assert(b.take(p.len() as int) =~= p) by {
                assert forall|i: int| 0 <= i < p.len() implies b[i] == p[i] by {
                    assert(x.take(q.len() as int)[i] == x[i]);
                    assert(x.take(p.len() as int)[i] == x[i]);
                    assert(q[i] == b[i]);
                }
            }
        } else {
            assert(a.take(q.len() as int) =~= q) by {
                assert forall|i: int| 0 <= i < q.len() implies a[i] == q[i] by {
                    assert(x.take(q.len() as int)[i] == x[i]);
                    assert(x.take(p.len() as int)[i] == x[i]);
                    assert(p[i] == a[i]);
                }
            }
        }
    }
}

/// A key moves exactly if it belongs to the folder or one below it; it then
/// belongs to the new folder, and moves back to where it was.
proof fn lemma_moved_back(k: Seq<char>, old_rel: Seq<char>, new_rel: Seq<char>)
    ensures
        moved_key(k, old_rel, new_rel) is Some <==> is_under(k, old_rel),
        moved_key(k, old_rel, new_rel) matches Some(x) ==> is_under(x, new_rel) && moved_key(
            x,
            new_rel,
            old_rel,
        ) == Some(k),
{
    reveal_strlit("/");
    let p = old_rel + "/"@;
    let q = new_rel + "/"@;
    if k != old_rel && text::starts_with(k, p) {
        let rest = k.skip(p.len() as int);
        let x = q + rest;
        assert(k =~= p + rest) by {
            assert(k =~= k.take(p.len() as int) + rest);
        }
        assert(x.take(q.len() as int) =~= q);
        assert(x.skip(q.len() as int) =~= rest);
        assert(x.len() > new_rel.len());
    }
}

/// Where neither of two paths lies in the other and no folder at or below the
/// new one has a colour, moving the colours there and back restores them.
pub proof fn law_moving_back_restores_the_colors(
    colors: Map<Seq<char>, Seq<char>>,
    keys: Seq<Seq<char>>,
    old_rel: Seq<char>,
    new_rel: Seq<char>,
    moved_keys: Seq<Seq<char>>,
)
    requires
        keys.no_duplicates(),
        forall|x: Seq<char>| #[trigger] colors.dom().contains(x) <==> keys.contains(x),
        !is_under(old_rel, new_rel),
        !is_under(new_rel, old_rel),
        forall|x: Seq<char>| #[trigger] colors.dom().contains(x) ==> !is_under(x, new_rel),
        moved_keys.no_duplicates(),
        forall|x: Seq<char>| #[trigger]
            moved_colors(colors, keys, old_rel, new_rel).dom().contains(x) <==> moved_keys.contains(x),
    ensures
        moved_colors(moved_colors(colors, keys, old_rel, new_rel), moved_keys, new_rel, old_rel) == colors,
{
    let there = moved_colors(colors, keys, old_rel, new_rel);
    let back = moved_colors(there, moved_keys, new_rel, old_rel);
    assert forall|x: Seq<char>| #[trigger] colors.dom().contains(x) implies !targeted(
        x,
        old_rel,
        new_rel,
        keys,
    ) by {
        if targeted(x, old_rel, new_rel, keys) {
            let i = choose|i: int|
                0 <= i < keys.len() && moved_key(#[trigger] keys[i], old_rel, new_rel) == Some(x);
            lemma_moved_back(keys[i], old_rel, new_rel);
        }
    }
    assert forall|x: Seq<char>| #[trigger] there.dom().contains(x) implies !targeted(
        x,
        new_rel,
        old_rel,
        moved_keys,
    ) by {
        if targeted(x, new_rel, old_rel, moved_keys) {
            let i = choose|i: int|
                0 <= i < moved_keys.len() && moved_key(#[trigger] moved_keys[i], new_rel, old_rel) == Some(x);
            lemma_moved_back(moved_keys[i], new_rel, old_rel);
            law_moving_adds_no_color(colors, keys, old_rel, new_rel, x);
            let k = choose|k: Seq<char>| #[trigger]
                colors.dom().contains(k) && there[x] == colors[k] && match moved_key(k, old_rel, new_rel) {
                    Some(y) => x == y,
                    None => x == k,
                };
            lemma_moved_back(k, old_rel, new_rel);
            if moved_key(k, old_rel, new_rel) is Some {
                lemma_under_both(x, old_rel, new_rel);
            }
        }
    }
    assert forall|k: Seq<char>| #[trigger] colors.dom().contains(k) implies back.dom().contains(k) && back[k]
        == colors[k] by {
        law_colors_move_with_their_folder(colors, keys, old_rel, new_rel, k);
        lemma_moved_back(k, old_rel, new_rel);
        let x = match moved_key(k, old_rel, new_rel) {
            Some(y) => y,
            None => k,
        };
        assert(there.dom().contains(x));
        law_colors_move_with_their_folder(there, moved_keys, new_rel, old_rel, x);
        lemma_moved_back(x, new_rel, old_rel);
    }
    assert forall|z: Seq<char>| #[trigger] back.dom().contains(z) implies colors.dom().contains(z) by {
        law_moving_adds_no_color(there, moved_keys, new_rel, old_rel, z);
        let x = choose|x: Seq<char>| #[trigger]
            there.dom().contains(x) && back[z] == there[x] && match moved_key(x, new_rel, old_rel) {
                Some(y) => z == y,
                None => z == x,
            };
        law_moving_adds_no_color(colors, keys, old_rel, new_rel, x);
        let k = choose|k: Seq<char>| #[trigger]
            colors.dom().contains(k) && there[x] == colors[k] && match moved_key(k, old_rel, new_rel) {
                Some(y) => x == y,
                None => x == k,
            };
        lemma_moved_back(k, old_rel, new_rel);
        lemma_moved_back(x, new_rel, old_rel);
    }
    assert(back =~= colors);
}

/// What is to be done with the file of the colours.
#[derive(Debug, Clone, Copy, PartialEq, Eq, Structural)]
pub enum ColorFile {
    /// Leave it as it is.
    Keep,
    /// Write the colours anew.
    Rewrite,
    /// Remove it: no colour is left.
    Remove,
}

/// Whether the key `k` belongs to the folder `rel` or one below it.
pub open spec fn is_under(k: Seq<char>, rel: Seq<char>) -> bool {
    k == rel || text::starts_with(k, rel + "/"@)
}

/// Takes off the colours of a removed folder and of all folders below it.
pub fn prune_folder_colors(colors: &mut StrMap<String>, removed_rel: &str) -> (r: ColorFile)
    requires
        old(colors).wf(),
    ensures
        final(colors).wf(),
        ({
            let rel = text::replaced(removed_rel@, '\\', '/');
            &&& forall|k: Seq<char>| #[trigger]
                final(colors)@.dom().contains(k) <==> old(colors)@.dom().contains(k) && !is_under(
                    k,
                    rel,
                )
            &&& forall|k: Seq<char>| #[trigger]
                final(colors)@.dom().contains(k) ==> final(colors)@[k] == old(colors)@[k]
            &&& r == if forall|k: Seq<char>|
                old(colors)@.dom().contains(k) ==> !#[trigger] is_under(k, rel) {
                ColorFile::Keep
            } else if final(colors).keys().len() == 0 {
                ColorFile::Remove
            } else {
                ColorFile::Rewrite
            }
        }),
{
    let rel = rel_to_string(removed_rel);
    let prefix = concat(rel.as_str(), "/");
    let mut kept: StrMap<String> = StrMap::new();
    let n = colors.len();
    let ghost keys = colors.keys();
    let mut dropped: bool = false;
    let mut i: usize = 0;
    proof {
        colors.lemma_keys();
    }
    while i < n
        invariant
            i <= n,
            n == keys.len(),
            colors.wf(),
            kept.wf(),
            *colors == *old(colors),
            keys == colors.keys(),
            keys.no_duplicates(),
            forall|k: Seq<char>| #[trigger] colors@.dom().contains(k) <==> keys.contains(k),
            rel@ == text::replaced(removed_rel@, '\\', '/'),
            prefix@ == rel@ + "/"@,
            forall|k: Seq<char>| #[trigger]
                kept@.dom().contains(k) <==> keys.take(i as int).contains(k) && !is_under(k, rel@),
            forall|k: Seq<char>| #[trigger]
                kept@.dom().contains(k) ==> kept@[k] == colors@[k],
            dropped == exists|j: int| 0 <= j < i && is_under(#[trigger] keys[j], rel@),
        decreases n - i,
    {
        let k = colors.key_at(i);
        let v = colors.value_at(i);
        let under: bool = same(k.as_str(), rel.as_str()) || has_prefix(k.as_str(), prefix.as_str());
        let ghost before = kept@;
        let ghost was = dropped;
        if under {
            dropped = true;
        } else {
            kept.insert(k.clone(), v.clone());
        }
        proof {
            let x = keys.take(i as int);
            let y = keys.take(i + 1);
            assert forall|q: Seq<char>| #[trigger]
                kept@.dom().contains(q) <==> y.contains(q) && !is_under(q, rel@) by {
                if y.contains(q) {
                    let a = choose|a: int| 0 <= a < y.len() && y[a] == q;
                    if a < x.len() {
                        assert(x[a] == q);
                    }
                }
                if x.contains(q) {
                    let a = choose|a: int| 0 <= a < x.len() && x[a] == q;
                    assert(y[a] == q);
                }
                assert(y[i as int] == k@);
                assert(before.dom().contains(q) <==> x.contains(q) && !is_under(q, rel@));
            }
            if was {
                let j = choose|j: int| 0 <= j < i && is_under(#[trigger] keys[j], rel@);
                assert(0 <= j < i + 1 && is_under(keys[j], rel@));
            }
            if under {
                assert(is_under(keys[i as int], rel@));
            }
        }
        i = i + 1;
    }
    assert(keys.take(i as int) =~= keys);
    proof {
        if dropped {
            let j = choose|j: int| 0 <= j < n && is_under(#[trigger] keys[j], rel@);
            assert(keys.contains(keys[j]));
            assert(colors@.dom().contains(keys[j]));
        } else {
            assert forall|k: Seq<char>| colors@.dom().contains(k) implies !#[trigger] is_under(
                k,
                rel@,
            ) by {
                assert(keys.contains(k));
                let j = choose|j: int| 0 <= j < keys.len() && keys[j] == k;
                assert(0 <= j < n && keys[j] == k);
            }
            assert forall|k: Seq<char>| #[trigger] colors@.dom().contains(k) implies !is_under(
                k,
                rel@,
            ) by {}
        }
    }
    if !dropped {
        return ColorFile::Keep;
    }
    let left = kept.len();
    *colors = kept;
    if left == 0 {
        ColorFile::Remove
    } else {
        ColorFile::Rewrite
    }
}

// ---------- what becomes of colours ----------

/// A folder is coloured with one of the three colours, or loses its colour with
/// none; the colours of other folders stay. Any other colour, and what is no
/// folder of the vault, is refused.
pub proof fn law_only_the_folder_gets_the_color(
    colors: Map<Seq<char>, Seq<char>>,
    vault: Seq<char>,
    rel: Seq<char>,
    color: Option<Seq<char>>,
    facts: PathFacts,
    other: Seq<char>,
)
    requires
        forall|i: int| 0 <= i < rel.len() ==> #[trigger] rel[i] != '\\',
    ensures
        ({
            let none = color is None || color->0.len() == 0;
            let known = color is Some && (color->0 == "fd1"@ || color->0 == "fd2"@ || color->0 == "fd3"@);
            let inside = fs_ops::resolved(vault, rel, facts.nearest, facts.canon_vault@) is Ok;
            match colored(colors, vault, rel, color, facts) {
                Ok(after) => {
                    &&& inside && facts.is_dir && (none || known)
                    &&& after.dom().contains(rel) <==> known
                    &&& known ==> after[rel] == color->0
                    &&& other != rel ==> (after.dom().contains(other) <==> colors.dom().contains(other))
                    &&& other != rel && colors.dom().contains(other) ==> after[other] == colors[other]
                },
                Err(_) => !inside || !facts.is_dir || !(none || known),
            }
        }),
{
    reveal_strlit("fd1");
    reveal_strlit("fd2");
    reveal_strlit("fd3");
    text::law_replacing_changes_one_character(rel, '\\', '/');
}

/// Exactly the folder itself and what lies below it move with it, each keeping
/// what follows the folder in its path.
pub proof fn law_folders_below_move_along(k: Seq<char>, rest: Seq<char>, old_rel: Seq<char>, new_rel: Seq<char>)
    ensures
        moved_key(old_rel, old_rel, new_rel) == Some(new_rel),
        moved_key(old_rel.push('/') + rest, old_rel, new_rel) == Some(new_rel.push('/') + rest),
        k != old_rel && !(exists|t: Seq<char>| k == #[trigger] (old_rel.push('/') + t)) ==> moved_key(
            k,
            old_rel,
            new_rel,
        ) is None,
        is_under(k, old_rel) <==> k == old_rel || exists|t: Seq<char>| k == #[trigger] (old_rel.push('/') + t),
{
    reveal_strlit("/");
    assert(old_rel + "/"@ =~= old_rel.push('/'));
    assert(new_rel + "/"@ =~= new_rel.push('/'));
    text::law_parts_of_a_text(k, old_rel.push('/'));
    let s = old_rel.push('/') + rest;
    text::law_parts_of_a_text(s, old_rel.push('/'));
    assert(s.skip(old_rel.push('/').len() as int) =~= rest);
    assert(s.len() > old_rel.len());
}

} // verus!
