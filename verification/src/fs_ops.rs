//! Paths, names and titles of the entries of a vault. Paths are relative to
//! the vault and separated by `/`.
use vstd::prelude::*;

use crate::digest;
use crate::digest::sha256_digest;
use crate::text;
use crate::text::{
    concat, concat3, concat4, contains_part, decimal_u64, find_char, find_ext,
    from_range, from_utf8_lossy, has_prefix, has_suffix, part_at, path_file_name, replace_char,
    rfind_char, same, split_char, strip_char, strip_prefix, strip_start_char, to_ascii_lower,
    to_ascii_upper, to_chars, to_hex, trim,
};

verus! {

/// Where deleted entries go.
pub const TRASH_DIR: &'static str = ".lanmark/trash";

/// Where attachments lie.
pub const ASSETS_DIR: &'static str = "assets";

/// Where the metadata of a vault lies.
pub const META_DIR: &'static str = ".lanmark";

/// The kinds of failure of an operation on the vault.
#[derive(Debug, Clone, Copy, PartialEq, Eq, Structural)]
pub enum FsErrorKind {
    InvalidInput,
    NotFound,
    PermissionDenied,
    AlreadyExists,
    Other,
}

/// Why an operation on the vault failed.
#[derive(Debug)]
pub struct FsError {
    pub kind: FsErrorKind,
    pub message: String,
}

pub struct FsErrorView {
    pub kind: FsErrorKind,
    pub message: Seq<char>,
}

impl View for FsError {
    type V = FsErrorView;

    open spec fn view(&self) -> FsErrorView {
        FsErrorView { kind: self.kind, message: self.message@ }
    }
}

impl FsError {
    /// A failure of the given kind.
    pub fn new(kind: FsErrorKind, message: &str) -> (r: Self)
        ensures
            r@ == fs_error(kind, message@),
    {
        FsError { kind, message: message.to_owned() }
    }
}

/// A failure of the given kind.
pub open spec fn fs_error(kind: FsErrorKind, message: Seq<char>) -> FsErrorView {
    FsErrorView { kind, message }
}

/// An entry of the tree that a user sees.
#[derive(Debug)]
pub struct Node {
    pub path: String,
    /// `note` or `folder`.
    pub kind: String,
    pub name: String,
    pub title: Option<String>,
}

pub struct NodeView {
    pub path: Seq<char>,
    pub kind: Seq<char>,
    pub name: Seq<char>,
    pub title: Option<Seq<char>>,
}

impl View for Node {
    type V = NodeView;

    open spec fn view(&self) -> NodeView {
        NodeView {
            path: self.path@,
            kind: self.kind@,
            name: self.name@,
            title: text::opt_view(self.title),
        }
    }
}

/// The time in milliseconds since the epoch, from what a clock reads; a clock
/// that stands before the epoch counts as 0.
pub fn now_ms(since_epoch: Option<u128>) -> (r: i64)
    ensures
        r == match since_epoch {
            Some(ms) => ms as i64,
            None => 0i64,
        },
{
    match since_epoch {
        Some(ms) => #[verifier::truncate] (ms as i64),
        None => 0,
    }
}

/// The hash under which content is known: its SHA-256 digest in hexadecimal.
pub open spec fn hash_text(data: Seq<u8>) -> Seq<char> {
    text::hex(digest::sha256(data))
}

/// The hash under which content is known.
pub fn content_hash(bytes: &[u8]) -> (r: String)
    ensures
        r@ == hash_text(bytes@),
        r@.len() == 64,
{
    let d = sha256_digest(bytes);
    proof {
        text::lemma_hex_len(d@);
    }
    to_hex(d.as_slice())
}

// ---------- paths ----------

/// Whether a segment of a path may stand in the vault.
pub open spec fn is_plain_segment(seg: Seq<char>) -> bool {
    seg.len() > 0 && seg != ".."@
}

/// Whether `rel`, taken without the white space around it, names something
/// below the vault: it is not empty, not `.`, not absolute, has no backslash,
/// and none of its segments is empty or `..`.
pub open spec fn is_safe_rel(rel: Seq<char>) -> bool {
    &&& rel.len() > 0
    &&& rel != "."@
    &&& !text::starts_with(rel, "/"@)
    &&& !rel.contains('\\')
    &&& forall|i: int|
        0 <= i < text::split(rel, '/').len() ==> is_plain_segment(#[trigger] text::split(rel, '/')[i])
}

/// A relative path behind a base.
pub open spec fn join(base: Seq<char>, rel: Seq<char>) -> Seq<char> {
    if base.len() == 0 {
        rel
    } else if base.last() == '/' {
        base + rel
    } else {
        base + "/"@ + rel
    }
}

/// A relative path behind a base.
pub fn path_join(base: &str, rel: &str) -> (r: String)
    ensures
        r@ == join(base@, rel@),
{
    let v = to_chars(base);
    if v.len() == 0 {
        rel.to_owned()
    } else if v[v.len() - 1] == '/' {
        concat(base, rel)
    } else {
        concat3(base, "/", rel)
    }
}

/// The error for a path that does not stay in the vault.
pub open spec fn bad_path(rel: Seq<char>) -> FsErrorView {
    fs_error(FsErrorKind::InvalidInput, "非法路径: "@ + rel)
}

/// What `safe_join` comes to.
pub open spec fn safe_joined(vault: Seq<char>, rel: Seq<char>) -> Result<Seq<char>, FsErrorView> {
    let t = text::trimmed(rel);
    if is_safe_rel(t) {
        Ok(join(vault, t))
    } else {
        Err(bad_path(t))
    }
}

/// The outcome of an operation that yields a text, by its views.
pub open spec fn outcome(r: Result<String, FsError>) -> Result<Seq<char>, FsErrorView> {
    match r {
        Ok(s) => Ok(s@),
        Err(e) => Err(e@),
    }
}

/// Whether `rel` names something below the vault.
pub fn check_rel(rel: &str) -> (r: bool)
    ensures
        r == is_safe_rel(rel@),
{
    let v = to_chars(rel);
    let segs = split_char(rel, '/');
    let ghost parts = text::split(rel@, '/');
    let mut ok: bool = !rel.is_empty() && !same(rel, ".") && !has_prefix(rel, "/");
    let mut i: usize = 0;
    while i < v.len()
        invariant
            i <= v.len(),
            v@ == rel@,
            ok == (rel@.len() > 0 && rel@ != "."@ && !text::starts_with(rel@, "/"@)
                && !rel@.take(i as int).contains('\\')),
        decreases v.len() - i,
    {
        proof {
            let t = rel@.take(i + 1);
            let u = rel@.take(i as int);
            assert(t =~= u.push(rel@[i as int]));
            assert(t.contains('\\') == (u.contains('\\') || rel@[i as int] == '\\')) by {
                if u.contains('\\') {
                    let k = choose|k: int| 0 <= k < u.len() && u[k] == '\\';
                    assert(t[k] == '\\');
                }
                if rel@[i as int] == '\\' {
                    assert(t[i as int] == '\\');
                }
            }
        }
        if v[i] == '\\' {
            ok = false;
        }
        i = i + 1;
    }
    assert(rel@.take(i as int) =~= rel@);
    let mut j: usize = 0;
    while j < segs.len()
        invariant
            j <= segs.len(),
            text::views(segs@) == text::split(rel@, '/'),
            ok == (rel@.len() > 0 && rel@ != "."@ && !text::starts_with(rel@, "/"@)
                && !rel@.contains('\\') && forall|k: int|
                0 <= k < j ==> is_plain_segment(#[trigger] text::split(rel@, '/')[k])),
        decreases segs.len() - j,
    {
        let seg = &segs[j];
        assert(text::split(rel@, '/')[j as int] == seg@);
        if seg.as_str().is_empty() || same(seg.as_str(), "..") {
            ok = false;
        }
        j = j + 1;
    }
    ok
}

/// The path of `rel` in the vault. Absolute paths, `..`, empty segments and
/// backslashes are refused.
pub fn safe_join(vault: &str, rel: &str) -> (r: Result<String, FsError>)
    ensures
        outcome(r) == safe_joined(vault@, rel@),
{
    let t = trim(rel);
    if check_rel(t.as_str()) {
        Ok(path_join(vault, t.as_str()))
    } else {
        let m = concat("非法路径: ", t.as_str());
        Err(FsError::new(FsErrorKind::InvalidInput, m.as_str()))
    }
}

/// No accepted path has a segment that leads out of the vault, and none is
/// absolute.
pub proof fn law_safe_join_does_not_escape(vault: Seq<char>, rel: Seq<char>, i: int)
    requires
        safe_joined(vault, rel) is Ok,
        0 <= i < text::split(text::trimmed(rel), '/').len(),
    ensures
        text::split(text::trimmed(rel), '/')[i] != ".."@,
        text::split(text::trimmed(rel), '/')[i].len() > 0,
        safe_joined(vault, rel) == Ok::<Seq<char>, FsErrorView>(join(vault, text::trimmed(rel))),
{
    assert(is_plain_segment(text::split(text::trimmed(rel), '/')[i]));
}

/// What the disk says of the nearest existing ancestor of a path.
pub enum Nearest {
    /// No ancestor exists.
    Missing,
    /// The canonical path of the ancestor.
    Canonical(String),
    /// The canonical path could not be had, for the given reason.
    Failed(String),
}

/// The components of an absolute path.
pub open spec fn components(path: Seq<char>) -> Seq<Seq<char>> {
    text::split(path, '/').filter(|c: Seq<char>| c.len() > 0 && c != "."@)
}

/// Whether `path` is `base` or lies below it.
pub open spec fn lies_in(path: Seq<char>, base: Seq<char>) -> bool {
    components(base).is_prefix_of(components(path))
}

/// The components of an absolute path.
pub fn path_components(path: &str) -> (r: Vec<String>)
    ensures
        text::views(r@) == components(path@),
{
    let parts = split_char(path, '/');
    let ghost p = |c: Seq<char>| c.len() > 0 && c != "."@;
    let mut out: Vec<String> = Vec::new();
    let mut i: usize = 0;
    proof {
        reveal(Seq::filter);
        assert(text::views(parts@).take(0).filter(p) =~= Seq::empty());
        assert(text::views(out@) =~= Seq::empty());
    }
    while i < parts.len()
        invariant
            i <= parts.len(),
            p == (|c: Seq<char>| c.len() > 0 && c != "."@),
            text::views(out@) == text::views(parts@).take(i as int).filter(p),
        decreases parts.len() - i,
    {
        broadcast use text::lemma_views_push;
        proof {
            let s = text::views(parts@);
            assert(s.take(i + 1) =~= s.take(i as int).push(s[i as int]));
            s.take(i as int).lemma_filter_push(s[i as int], p);
        }
        if !parts[i].as_str().is_empty() && !same(parts[i].as_str(), ".") {
            out.push(parts[i].clone());
        }
        i = i + 1;
    }
    assert(text::views(parts@).take(i as int) =~= text::views(parts@));
    out
}

/// Whether `path` is `base` or lies below it.
pub fn path_lies_in(path: &str, base: &str) -> (r: bool)
    ensures
        r == lies_in(path@, base@),
{
    let a = path_components(path);
    let b = path_components(base);
    let ghost x = components(path@);
    let ghost y = components(base@);
    if b.len() > a.len() {
        return false;
    }
    let mut i: usize = 0;
    while i < b.len()
        invariant
            i <= b.len() <= a.len(),
            x == text::views(a@),
            y == text::views(b@),
            x == components(path@),
            y == components(base@),
            forall|j: int| 0 <= j < i ==> x[j] == y[j],
        decreases b.len() - i,
    {
        assert(x[i as int] == a@[i as int]@ && y[i as int] == b@[i as int]@);
        if !same(a[i].as_str(), b[i].as_str()) {
            assert(!(y =~= x.subrange(0, y.len() as int))) by {
                assert(x.subrange(0, y.len() as int)[i as int] == x[i as int]);
            }
            return false;
        }
        i = i + 1;
    }
    assert(y =~= x.subrange(0, y.len() as int));
    true
}

/// What `resolve_in_vault` comes to.
pub open spec fn resolved(
    vault: Seq<char>,
    rel: Seq<char>,
    nearest: Nearest,
    canon_vault: Seq<char>,
) -> Result<Seq<char>, FsErrorView> {
    match safe_joined(vault, rel) {
        Err(e) => Err(e),
        Ok(abs) => match nearest {
            Nearest::Missing => Err(
                fs_error(FsErrorKind::NotFound, "路径不存在且无法定位祖先目录"@),
            ),
            Nearest::Failed(e) => Err(fs_error(FsErrorKind::Other, e@)),
            Nearest::Canonical(c) => if lies_in(c@, canon_vault) {
                Ok(abs)
            } else {
                Err(fs_error(FsErrorKind::PermissionDenied, "路径经符号链接越出 vault"@))
            },
        },
    }
}

/// The path of `rel` in the vault, unless a link leads out of it: the
/// canonical path of the nearest ancestor that exists must lie in the
/// canonical vault.
pub fn resolve_in_vault(vault: &str, rel: &str, nearest: &Nearest, canon_vault: &str) -> (r: Result<
    String,
    FsError,
>)
    ensures
        outcome(r) == resolved(vault@, rel@, *nearest, canon_vault@),
{
    match safe_join(vault, rel) {
        Err(e) => Err(e),
        Ok(abs) => match nearest {
            Nearest::Missing => Err(
                FsError::new(FsErrorKind::NotFound, "路径不存在且无法定位祖先目录"),
            ),
            Nearest::Failed(e) => Err(FsError::new(FsErrorKind::Other, e.as_str())),
            Nearest::Canonical(c) => {
                if path_lies_in(c.as_str(), canon_vault) {
                    Ok(abs)
                } else {
                    Err(
                        FsError::new(
                            FsErrorKind::PermissionDenied,
                            "路径经符号链接越出 vault",
                        ),
                    )
                }
            },
        },
    }
}

/// What `dir_for` comes to.
pub open spec fn dir_joined(vault: Seq<char>, dir_rel: Seq<char>) -> Result<Seq<char>, FsErrorView> {
    let t = text::trimmed(dir_rel);
    if t.len() == 0 || t == "."@ {
        Ok(vault)
    } else {
        safe_joined(vault, t)
    }
}

/// The path of a directory of the vault; the empty path is the vault itself.
pub fn dir_for(vault: &str, dir_rel: &str) -> (r: Result<String, FsError>)
    ensures
        outcome(r) == dir_joined(vault@, dir_rel@),
{
    let t = trim(dir_rel);
    if t.as_str().is_empty() || same(t.as_str(), ".") {
        Ok(vault.to_owned())
    } else {
        safe_join(vault, t.as_str())
    }
}

/// A path with `/` as its only separator.
pub fn rel_to_string(p: &str) -> (r: String)
    ensures
        r@ == text::replaced(p@, '\\', '/'),
{
    replace_char(p, '\\', '/')
}

// ---------- names ----------

/// The stem of the last component of a path, or the whole path where it has
/// no such component.
pub open spec fn stem_of(path: Seq<char>) -> Seq<char> {
    match text::file_name(path) {
        Some(n) => n.take(text::ext_start(n)),
        None => path,
    }
}

/// The extension of the last component of a path, dot included; empty where
/// there is none.
pub open spec fn dot_ext_of(path: Seq<char>) -> Seq<char> {
    match text::file_name(path) {
        Some(n) => n.skip(text::ext_start(n)),
        None => Seq::empty(),
    }
}

/// Stem and extension of the last component of a path.
fn stem_and_ext(path: &str) -> (r: (String, String))
    ensures
        r.0@ == stem_of(path@),
        r.1@ == dot_ext_of(path@),
{
    match path_file_name(path) {
        None => {
            let e = String::new();
            assert(e@ =~= dot_ext_of(path@));
            (path.to_owned(), e)
        },
        Some(n) => {
            let v = to_chars(n.as_str());
            let i = find_ext(&v);
            let stem = from_range(&v, 0, i);
            let ext = from_range(&v, i, v.len());
            assert(stem@ =~= n@.take(i as int));
            assert(ext@ =~= n@.skip(i as int));
            (stem, ext)
        },
    }
}

/// The title of a note without a title of its own: its file name without the
/// extension.
pub fn title_from_stem(filename: &str) -> (r: String)
    ensures
        r@ == stem_of(filename@),
{
    let (stem, _ext) = stem_and_ext(filename);
    stem
}

/// Whether a path names a note.
pub open spec fn is_note(path: Seq<char>) -> bool {
    dot_ext_of(path) == ".md"@
}

/// Whether a path names a note.
pub fn is_note_file(path: &str) -> (r: bool)
    ensures
        r == is_note(path@),
{
    let (_stem, ext) = stem_and_ext(path);
    same(ext.as_str(), ".md")
}

/// A note is a file whose name ends in `.md` with something before it, in
/// whatever directory it lies.
pub proof fn law_notes_end_in_md(dir: Seq<char>, name: Seq<char>)
    requires
        name.len() > 0,
        name != "."@,
        forall|i: int| 0 <= i < name.len() ==> #[trigger] name[i] != '/',
    ensures
        is_note(name) <==> name.len() > 3 && name.skip(name.len() - 3) == seq!['.', 'm', 'd'],
        is_note(dir + seq!['/'] + name) <==> name.len() > 3 && name.skip(name.len() - 3) == seq!['.', 'm', 'd'],
{
    reveal_strlit(".md");
    reveal_strlit("..");
    let md = seq!['.', 'm', 'd'];
    assert(".md"@ =~= md);
    text::lemma_last_index(name, '.');
    let i = text::ext_start(name);
    text::law_path_ends_in_its_name(dir, name);
    if name != ".."@ {
        if name.len() > 3 && name.skip(name.len() - 3) == md {
            assert(name[name.len() - 3] == name.skip(name.len() - 3)[0]);
            assert(name[name.len() - 2] == name.skip(name.len() - 3)[1]);
            assert(name[name.len() - 1] == name.skip(name.len() - 3)[2]);
            assert(text::last_index(name, '.') == name.len() - 3);
        }
        if name.skip(i) == md {
            assert(name.skip(i).len() == name.len() - i);
        }
    }
}

/// The name number `i` (from 2) under which an entry is put beside others of
/// its name.
pub open spec fn numbered_name(file_name: Seq<char>, i: nat) -> Seq<char> {
    if i < 2 {
        file_name
    } else {
        stem_of(file_name) + "-"@ + text::decimal(i) + dot_ext_of(file_name)
    }
}

/// Whether `asked` are the first names for `file_name`, each answered by
/// `taken` with "yes".
pub open spec fn all_taken<F: Fn(&String) -> bool>(
    taken: F,
    asked: Seq<String>,
    file_name: Seq<char>,
) -> bool {
    forall|i: int| #![trigger asked[i]]
        0 <= i < asked.len() ==> asked[i]@ == numbered_name(file_name, (i + 1) as nat)
            && call_ensures(taken, (&asked[i],), true)
}

/// Whether `name` is the first free name for `file_name`: all names before it
/// are taken, and it is not.
pub open spec fn is_first_free<F: Fn(&String) -> bool>(
    taken: F,
    asked: Seq<String>,
    name: String,
    file_name: Seq<char>,
) -> bool {
    &&& all_taken(taken, asked, file_name)
    &&& name@ == numbered_name(file_name, (asked.len() + 1) as nat)
    &&& call_ensures(taken, (&name,), false)
}

/// The error for a name of which there are too many.
pub open spec fn too_many(file_name: Seq<char>) -> FsErrorView {
    fs_error(FsErrorKind::AlreadyExists, "同名目标过多，无法生成唯一名: "@ + file_name)
}

/// What `unique_target_with_cap` comes to: the first free name among the own
/// one and those numbered 2 to `cap`, or the error where all are taken.
pub open spec fn unique_outcome<F: Fn(&String) -> bool>(
    r: Result<String, FsError>,
    taken: F,
    file_name: Seq<char>,
    cap: u32,
) -> bool {
    let count = tries(cap);
    match r {
        Ok(name) => exists|asked: Seq<String>|
            #![trigger is_first_free(taken, asked, name, file_name)]
            asked.len() < count && is_first_free(taken, asked, name, file_name),
        Err(e) => e@ == too_many(file_name) && exists|asked: Seq<String>|
            #![trigger all_taken(taken, asked, file_name)]
            asked.len() == count && all_taken(taken, asked, file_name),
    }
}

/// How many names are tried where the numbers go up to `cap`.
pub open spec fn tries(cap: u32) -> int {
    if cap < 2 {
        1
    } else {
        cap as int
    }
}

/// The names that may be looked for: each in its turn, once those before it are
/// taken.
pub open spec fn names_leave<F: Fn(&String) -> bool>(taken: F, file_name: Seq<char>, cap: u32) -> bool {
    forall|s: &String, asked: Seq<String>|
        {
            &&& #[trigger] all_taken(taken, asked, file_name)
            &&& asked.len() < tries(cap)
            &&& s@ == numbered_name(file_name, (asked.len() + 1) as nat)
        } ==> #[trigger] call_requires(taken, (s,))
}

/// The name under which an entry `file_name` goes into a directory: its own,
/// or with `-2`, `-3` and so on up to `cap` where that is taken. It is an
/// error if all of them are.
pub fn unique_target_with_cap<F: Fn(&String) -> bool>(file_name: &str, cap: u32, taken: F) -> (r: Result<
    String,
    FsError,
>)
    requires
        names_leave(taken, file_name@, cap),
    ensures
        unique_outcome(r, taken, file_name@, cap),
{
    let ghost mut asked: Seq<String> = Seq::empty();
    let first: String = file_name.to_owned();
    assert(all_taken(taken, asked, file_name@));
    if !taken(&first) {
        let r: Result<String, FsError> = Ok(first);
        assert(is_first_free(taken, asked, r->Ok_0, file_name@));
        return r;
    }
    proof {
        asked = asked.push(first);
        assert(all_taken(taken, asked, file_name@));
    }
    let (stem, ext) = stem_and_ext(file_name);
    let mut i: u32 = 1;
    while i < cap
        invariant
            1 <= i,
            i <= cap || i == 1,
            asked.len() == i,
            all_taken(taken, asked, file_name@),
            stem@ == stem_of(file_name@),
            ext@ == dot_ext_of(file_name@),
            names_leave(taken, file_name@, cap),
        decreases cap - i,
    {
        i = i + 1;
        let n = decimal_u64(i as u64);
        let name = concat4(stem.as_str(), "-", n.as_str(), ext.as_str());
        if !taken(&name) {
            let r: Result<String, FsError> = Ok(name);
            assert(is_first_free(taken, asked, r->Ok_0, file_name@));
            return r;
        }
        proof {
            let before = asked;
            asked = asked.push(name);
            assert forall|j: int| #![trigger asked[j]] 0 <= j < asked.len() implies asked[j]@
                == numbered_name(file_name@, (j + 1) as nat) && call_ensures(
                taken,
                (&asked[j],),
                true,
            ) by {
                if j < before.len() {
                    assert(asked[j] == before[j]);
                }
            }
        }
    }
    assert(all_taken(taken, asked, file_name@));
    let m = concat("同名目标过多，无法生成唯一名: ", file_name);
    Err(FsError::new(FsErrorKind::AlreadyExists, m.as_str()))
}

/// The number of names that are tried for an entry.
pub const UNIQUE_CAP: u32 = 10_000;

/// The name under which an entry `file_name` goes into a directory.
pub fn unique_target<F: Fn(&String) -> bool>(file_name: &str, taken: F) -> (r: Result<
    String,
    FsError,
>)
    requires
        names_leave(taken, file_name@, UNIQUE_CAP),
    ensures
        unique_outcome(r, taken, file_name@, UNIQUE_CAP),
{
    unique_target_with_cap(file_name, UNIQUE_CAP, taken)
}

/// The numbered names that an entry may get beside others of its name all
/// differ.
pub proof fn law_numbered_names_differ(file_name: Seq<char>, i: nat, j: nat)
    requires
        2 <= i,
        2 <= j,
        i != j,
    ensures
        numbered_name(file_name, i) != numbered_name(file_name, j),
{
    let lead = stem_of(file_name) + "-"@;
    let ext = dot_ext_of(file_name);
    let x = text::decimal(i);
    let y = text::decimal(j);
    text::lemma_number_of_decimal(i);
    text::lemma_number_of_decimal(j);
    if lead + x + ext == lead + y + ext {
        assert((lead + x + ext).len() == (lead + y + ext).len());
        assert(x =~= (lead + x + ext).subrange(lead.len() as int, (lead.len() + x.len()) as int));
        assert(y =~= (lead + y + ext).subrange(lead.len() as int, (lead.len() + x.len()) as int));
    }
}

/// Whether `base` is a name that Windows keeps for a device.
pub open spec fn is_device_name(base: Seq<char>) -> bool {
    ||| base == "CON"@
    ||| base == "PRN"@
    ||| base == "AUX"@
    ||| base == "NUL"@
    ||| base == "COM1"@
    ||| base == "COM2"@
    ||| base == "COM3"@
    ||| base == "COM4"@
    ||| base == "COM5"@
    ||| base == "COM6"@
    ||| base == "COM7"@
    ||| base == "COM8"@
    ||| base == "COM9"@
    ||| base == "LPT1"@
    ||| base == "LPT2"@
    ||| base == "LPT3"@
    ||| base == "LPT4"@
    ||| base == "LPT5"@
    ||| base == "LPT6"@
    ||| base == "LPT7"@
    ||| base == "LPT8"@
    ||| base == "LPT9"@
}

/// Whether a file name is kept for a device by Windows, whatever its extension
/// and its case.
pub open spec fn is_reserved(name: Seq<char>) -> bool {
    is_device_name(text::ascii_uppered(name.take(text::first_index(name, '.'))))
}

/// Whether a file name is kept for a device by Windows.
pub fn is_windows_reserved_base(name: &str) -> (r: bool)
    ensures
        r == is_reserved(name@),
{
    let v = to_chars(name);
    assert(v@.skip(0) =~= v@);
    let i = find_char(&v, 0, '.');
    let head = from_range(&v, 0, i);
    assert(head@ =~= name@.take(i as int));
    let up = to_ascii_upper(head.as_str());
    let u = up.as_str();
    same(u, "CON") || same(u, "PRN") || same(u, "AUX") || same(u, "NUL") || same(u, "COM1") || same(
        u,
        "COM2",
    ) || same(u, "COM3") || same(u, "COM4") || same(u, "COM5") || same(u, "COM6") || same(u, "COM7")
        || same(u, "COM8") || same(u, "COM9") || same(u, "LPT1") || same(u, "LPT2") || same(u, "LPT3")
        || same(u, "LPT4") || same(u, "LPT5") || same(u, "LPT6") || same(u, "LPT7") || same(u, "LPT8")
        || same(u, "LPT9")
}

// ---------- creating, renaming, moving ----------

/// What the disk says of a path that an operation is about.
pub struct PathFacts {
    /// The nearest existing ancestor of the path.
    pub nearest: Nearest,
    /// The canonical path of the vault.
    pub canon_vault: String,
    /// Whether the path is a directory.
    pub is_dir: bool,
}

/// `s` without the segments `.` at its start.
pub open spec fn strip_lead_dots(s: Seq<char>) -> Seq<char>
    decreases s.len(),
{
    if s.len() >= 2 && s[0] == '.' && s[1] == '/' {
        strip_lead_dots(s.skip(2))
    } else {
        s
    }
}

/// `s` without the segments `.` at its end.
pub open spec fn strip_trail_dots(s: Seq<char>) -> Seq<char>
    decreases s.len(),
{
    if s.len() >= 2 && s[s.len() - 1] == '.' && s[s.len() - 2] == '/' {
        strip_trail_dots(s.take(s.len() - 2))
    } else {
        s
    }
}

/// A path without the segments `.` around it.
pub open spec fn core_path(rel: Seq<char>) -> Seq<char> {
    strip_lead_dots(strip_trail_dots(text::trimmed(rel)))
}

/// The directory of an entry.
pub open spec fn parent_rel(rel: Seq<char>) -> Seq<char> {
    let c = core_path(rel);
    let i = text::last_index(c, '/');
    if i >= 0 {
        strip_trail_dots(c.take(i))
    } else {
        Seq::empty()
    }
}

/// The name of an entry.
pub open spec fn entry_name(rel: Seq<char>) -> Seq<char> {
    let c = core_path(rel);
    c.skip(text::last_index(c, '/') + 1)
}

/// Whether a path in the vault is the vault itself: nothing but segments `.`.
pub open spec fn is_vault_itself(rel: Seq<char>) -> bool {
    core_path(rel) == "."@
}

/// The name of a vault's own directory, empty where it has none.
pub open spec fn vault_name(vault: Seq<char>) -> Seq<char> {
    match text::file_name(vault) {
        Some(n) => n,
        None => Seq::empty(),
    }
}

/// The error where an entry is to go into itself.
pub open spec fn into_itself() -> FsErrorView {
    fs_error(FsErrorKind::InvalidInput, "不能移动到自身内部"@)
}

/// The path of an entry `name` in the directory `dir`.
pub open spec fn entry_rel(dir: Seq<char>, name: Seq<char>) -> Seq<char> {
    let joined = if dir.len() == 0 || dir == "."@ {
        name
    } else {
        dir + "/"@ + name
    };
    text::replaced(strip_lead_dots(joined), '\\', '/')
}

/// `s` without the segments `.` at its start.
#[verifier::spinoff_prover]
pub fn without_lead_dots(s: &str) -> (r: String)
    ensures
        r@ == strip_lead_dots(s@),
{
    let v = to_chars(s);
    let mut i: usize = 0;
    assert(v@.skip(0) =~= v@);
    while v.len() - i >= 2 && v[i] == '.' && v[i + 1] == '/'
        invariant
            i <= v.len(),
            strip_lead_dots(v@) == strip_lead_dots(v@.skip(i as int)),
        decreases v.len() - i,
    {
        assert(v@.skip(i as int).skip(2) =~= v@.skip(i + 2));
        i = i + 2;
    }
    assert(v@.skip(i as int) =~= v@.subrange(i as int, v@.len() as int));
    from_range(&v, i, v.len())
}

/// `s` without the segments `.` at its end.
fn without_trail_dots(s: &str) -> (r: String)
    ensures
        r@ == strip_trail_dots(s@),
{
    let v = to_chars(s);
    let mut n: usize = v.len();
    assert(v@.take(n as int) =~= v@);
    while n >= 2 && v[n - 1] == '.' && v[n - 2] == '/'
        invariant
            n <= v.len(),
            strip_trail_dots(v@) == strip_trail_dots(v@.take(n as int)),
        decreases n,
    {
        assert(v@.take(n as int).take(n - 2) =~= v@.take(n - 2));
        n = n - 2;
    }
    assert(v@.take(n as int) =~= v@.subrange(0, n as int));
    from_range(&v, 0, n)
}

/// The directory and the name of an entry.
pub fn parent_and_name(rel: &str) -> (r: (String, String))
    ensures
        r.0@ == parent_rel(rel@),
        r.1@ == entry_name(rel@),
{
    let t = trim(rel);
    let u = without_trail_dots(t.as_str());
    let c = without_lead_dots(u.as_str());
    let v = to_chars(c.as_str());
    proof {
        text::lemma_last_index(v@, '/');
    }
    match rfind_char(&v, '/') {
        Some(i) => {
            let head = from_range(&v, 0, i);
            let name = from_range(&v, i + 1, v.len());
            assert(head@ =~= c@.take(i as int));
            assert(name@ =~= c@.skip(i + 1));
            (without_trail_dots(head.as_str()), name)
        },
        None => {
            let none = String::new();
            assert(none@ =~= Seq::<char>::empty());
            assert(c@.skip(0) =~= c@);
            (none, c)
        },
    }
}

/// Whether a path in the vault is the vault itself.
pub fn names_vault(rel: &str) -> (r: bool)
    ensures
        r == is_vault_itself(rel@),
{
    let t = trim(rel);
    let u = without_trail_dots(t.as_str());
    let c = without_lead_dots(u.as_str());
    same(c.as_str(), ".")
}

/// The name of a vault's own directory, empty where it has none.
pub fn name_of_vault(vault: &str) -> (r: String)
    ensures
        r@ == vault_name(vault@),
{
    match path_file_name(vault) {
        Some(n) => n,
        None => {
            let none = String::new();
            assert(none@ =~= Seq::<char>::empty());
            none
        },
    }
}

/// The error where an entry is to go into itself.
pub fn refuse_into_itself() -> (r: FsError)
    ensures
        r@ == into_itself(),
{
    FsError::new(FsErrorKind::InvalidInput, "不能移动到自身内部")
}

/// The path of an entry `name` in the directory `dir`.
fn entry_path(dir: &str, name: &str) -> (r: String)
    ensures
        r@ == entry_rel(dir@, name@),
{
    let joined: String = if dir.is_empty() || same(dir, ".") {
        name.to_owned()
    } else {
        concat3(dir, "/", name)
    };
    let s = without_lead_dots(joined.as_str());
    rel_to_string(s.as_str())
}

/// Whether `r` is what comes of putting an entry `file_name` into `dir`: its
/// path under the first free name, or the error where none is free.
pub open spec fn placed<F: Fn(&String) -> bool>(
    r: Result<String, FsError>,
    taken: F,
    file_name: Seq<char>,
    dir: Seq<char>,
) -> bool {
    exists|u: Result<String, FsError>|
        {
            &&& #[trigger] unique_outcome(u, taken, file_name, UNIQUE_CAP)
            &&& match u {
                Ok(name) => r is Ok && r->Ok_0@ == entry_rel(dir, name@),
                Err(e) => r is Err && r->Err_0@ == e@,
            }
        }
}

/// The path under which an entry `file_name` goes into `dir`.
fn place<F: Fn(&String) -> bool>(file_name: &str, dir: &str, taken: F) -> (r: Result<
    String,
    FsError,
>)
    requires
        names_leave(taken, file_name@, UNIQUE_CAP),
    ensures
        placed(r, taken, file_name@, dir@),
{
    let u = unique_target(file_name, taken);
    let ghost w = u;
    let r: Result<String, FsError> = match u {
        Ok(name) => Ok(entry_path(dir, name.as_str())),
        Err(e) => Err(e),
    };
    assert(unique_outcome(w, taken, file_name@, UNIQUE_CAP));
    r
}

/// The name that an entry gets: one that Windows keeps for a device is
/// prefixed.
pub open spec fn unreserved(name: Seq<char>) -> Seq<char> {
    if is_reserved(name) {
        "n-"@ + name
    } else {
        name
    }
}

/// What `resolve_target` comes to: directory and name, or why there is none.
pub open spec fn target_of(
    vault: Seq<char>,
    dir_rel: Seq<char>,
    name: Seq<char>,
    facts: PathFacts,
) -> Result<(Seq<char>, Seq<char>), FsErrorView> {
    let t = text::trimmed(dir_rel);
    match dir_joined(vault, dir_rel) {
        Err(e) => Err(e),
        Ok(dir) => if !facts.is_dir {
            Err(fs_error(FsErrorKind::NotFound, "目录不存在: "@ + dir_rel))
        } else if t.len() > 0 && t != "."@ {
            match resolved(vault, t, facts.nearest, facts.canon_vault@) {
                Err(e) => Err(e),
                Ok(_) => Ok((dir, unreserved(name))),
            }
        } else {
            Ok((dir, unreserved(name)))
        },
    }
}

/// The directory and the name for a new entry. `name` is the name that the
/// user gave, cleaned of what no file name may hold.
pub fn resolve_target(vault: &str, dir_rel: &str, name: &str, facts: &PathFacts) -> (r: Result<
    (String, String),
    FsError,
>)
    ensures
        match r {
            Ok((d, n)) => target_of(vault@, dir_rel@, name@, *facts) == Ok::<
                (Seq<char>, Seq<char>),
                FsErrorView,
            >((d@, n@)),
            Err(e) => target_of(vault@, dir_rel@, name@, *facts) == Err::<
                (Seq<char>, Seq<char>),
                FsErrorView,
            >(e@),
        },
{
    let t = trim(dir_rel);
    match dir_for(vault, dir_rel) {
        Err(e) => Err(e),
        Ok(dir) => {
            if !facts.is_dir {
                let m = concat("目录不存在: ", dir_rel);
                return Err(FsError::new(FsErrorKind::NotFound, m.as_str()));
            }
            if !t.as_str().is_empty() && !same(t.as_str(), ".") {
                match resolve_in_vault(vault, t.as_str(), &facts.nearest, facts.canon_vault.as_str()) {
                    Err(e) => {
                        return Err(e);
                    },
                    Ok(_) => {},
                }
            }
            let n: String = if is_windows_reserved_base(name) {
                concat("n-", name)
            } else {
                name.to_owned()
            };
            Ok((dir, n))
        },
    }
}

/// The file name of a new note.
pub open spec fn note_file_name(name: Seq<char>) -> Seq<char> {
    if text::ends_with(name, ".md"@) {
        name
    } else {
        name + ".md"@
    }
}

/// The node of a new entry.
pub open spec fn new_node(path: Seq<char>, file: Seq<char>, note: bool) -> NodeView {
    NodeView {
        path,
        kind: if note {
            "note"@
        } else {
            "folder"@
        },
        name: file,
        title: if note {
            Some(stem_of(file))
        } else {
            None
        },
    }
}

/// What a new entry with the file name `file` in `dir` comes to.
pub open spec fn created_as<F: Fn(&String) -> bool>(
    r: Result<Node, FsError>,
    taken: F,
    dir: Seq<char>,
    file: Seq<char>,
    note: bool,
) -> bool {
    exists|p: Result<String, FsError>|
        {
            &&& #[trigger] placed(p, taken, file, dir)
            &&& match p {
                Err(e) => r is Err && r->Err_0@ == e@,
                Ok(rel) => r is Ok && r->Ok_0@ == new_node(rel@, file, note),
            }
        }
}

/// What a new entry comes to.
pub open spec fn created<F: Fn(&String) -> bool>(
    r: Result<Node, FsError>,
    taken: F,
    vault: Seq<char>,
    dir_rel: Seq<char>,
    name: Seq<char>,
    facts: PathFacts,
    note: bool,
) -> bool {
    match target_of(vault, dir_rel, name, facts) {
        Err(e) => r is Err && r->Err_0@ == e,
        Ok((_, n)) => if note {
            created_as(r, taken, text::trimmed(dir_rel), note_file_name(n), true)
        } else {
            created_as(r, taken, text::trimmed(dir_rel), n, false)
        },
    }
}

/// A new note in `dir_rel`: its path is the first free one for its name.
pub fn create_note<F: Fn(&String) -> bool>(
    vault: &str,
    dir_rel: &str,
    name: &str,
    facts: &PathFacts,
    taken: F,
) -> (r: Result<Node, FsError>)
    requires
        target_of(vault@, dir_rel@, name@, *facts) is Ok ==> names_leave(
            taken,
            note_file_name(unreserved(name@)),
            UNIQUE_CAP,
        ),
    ensures
        created(r, taken, vault@, dir_rel@, name@, *facts, true),
{
    match resolve_target(vault, dir_rel, name, facts) {
        Err(e) => Err(e),
        Ok((_dir, n)) => {
            let file: String = if has_suffix(n.as_str(), ".md") {
                n
            } else {
                concat(n.as_str(), ".md")
            };
            let t = trim(dir_rel);
            let p = place(file.as_str(), t.as_str(), taken);
            let ghost q = p;
            assert(placed(q, taken, file@, text::trimmed(dir_rel@)));
            match p {
                Err(e) => Err(e),
                Ok(rel) => {
                    let title = title_from_stem(file.as_str());
                    Ok(Node { path: rel, kind: "note".to_owned(), name: file, title: Some(title) })
                },
            }
        },
    }
}

/// A new folder in `dir_rel`: its path is the first free one for its name.
pub fn create_folder<F: Fn(&String) -> bool>(
    vault: &str,
    dir_rel: &str,
    name: &str,
    facts: &PathFacts,
    taken: F,
) -> (r: Result<Node, FsError>)
    requires
        target_of(vault@, dir_rel@, name@, *facts) is Ok ==> names_leave(taken, unreserved(name@), UNIQUE_CAP),
    ensures
        created(r, taken, vault@, dir_rel@, name@, *facts, false),
{
    match resolve_target(vault, dir_rel, name, facts) {
        Err(e) => Err(e),
        Ok((_dir, file)) => {
            let t = trim(dir_rel);
            let p = place(file.as_str(), t.as_str(), taken);
            let ghost q = p;
            assert(placed(q, taken, file@, text::trimmed(dir_rel@)));
            match p {
                Err(e) => Err(e),
                Ok(rel) => Ok(Node { path: rel, kind: "folder".to_owned(), name: file, title: None }),
            }
        },
    }
}

/// A new name as the user gave it, and as it is once cleaned of what no file
/// name may hold: with its extension kept apart, and as a whole.
pub struct CleanName {
    pub raw: String,
    pub with_ext: String,
    pub plain: String,
}

/// The file name that a rename aims at: a new name without extension takes
/// over the old one.
pub open spec fn renamed_file(new_name: CleanName, old_name: Seq<char>) -> Seq<char> {
    let i = text::ext_start(old_name);
    if text::last_index(new_name.raw@, '.') > 0 {
        new_name.with_ext@
    } else if i + 1 >= old_name.len() {
        new_name.plain@
    } else {
        new_name.plain@ + "."@ + old_name.skip(i + 1)
    }
}

/// The file name that a rename aims at.
pub fn rename_file(new_name: &CleanName, old_name: &str) -> (r: String)
    ensures
        r@ == renamed_file(*new_name, old_name@),
{
    let raw = to_chars(new_name.raw.as_str());
    let old = to_chars(old_name);
    let has_ext: bool = match rfind_char(&raw, '.') {
        Some(i) => i > 0,
        None => false,
    };
    if has_ext {
        return new_name.with_ext.clone();
    }
    let i = find_ext(&old);
    if i >= old.len() || i + 1 >= old.len() {
        new_name.plain.clone()
    } else {
        let ext = from_range(&old, i + 1, old.len());
        assert(ext@ =~= old_name@.skip(i + 1));
        concat3(new_name.plain.as_str(), ".", ext.as_str())
    }
}

/// Whether `r` is the path that an entry has after a rename in its directory.
pub open spec fn rename_outcome<F: Fn(&String) -> bool>(
    r: Result<String, FsError>,
    taken: F,
    vault: Seq<char>,
    rel_path: Seq<char>,
    new_name: CleanName,
    facts: PathFacts,
) -> bool {
    match resolved(vault, rel_path, facts.nearest, facts.canon_vault@) {
        Err(e) => r is Err && r->Err_0@ == e,
        Ok(_) => if is_vault_itself(rel_path) {
            if renamed_file(new_name, vault_name(vault)) == vault_name(vault) {
                r is Ok && r->Ok_0@ == rel_path
            } else {
                r is Err && r->Err_0@ == fs_error(FsErrorKind::InvalidInput, "无父目录"@)
            }
        } else {
            let file = renamed_file(new_name, entry_name(rel_path));
            if file == entry_name(rel_path) {
                r is Ok && r->Ok_0@ == rel_path
            } else {
                placed(r, taken, file, parent_rel(rel_path))
            }
        },
    }
}

/// Whether a rename may look for free names: where the entry is in the vault
/// and not the vault itself.
pub open spec fn rename_leave<F: Fn(&String) -> bool>(
    taken: F,
    vault: Seq<char>,
    rel_path: Seq<char>,
    new_name: CleanName,
    facts: PathFacts,
) -> bool {
    resolved(vault, rel_path, facts.nearest, facts.canon_vault@) is Ok && !is_vault_itself(rel_path)
        ==> names_leave(taken, renamed_file(new_name, entry_name(rel_path)), UNIQUE_CAP)
}

/// The path that an entry has after a rename in its directory. The path as it
/// was given means that nothing is to be done. The vault itself keeps its name:
/// its directory lies outside.
pub fn rename_entry<F: Fn(&String) -> bool>(
    vault: &str,
    rel_path: &str,
    new_name: &CleanName,
    facts: &PathFacts,
    taken: F,
) -> (r: Result<String, FsError>)
    requires
        rename_leave(taken, vault@, rel_path@, *new_name, *facts),
    ensures
        rename_outcome(r, taken, vault@, rel_path@, *new_name, *facts),
{
    match resolve_in_vault(vault, rel_path, &facts.nearest, facts.canon_vault.as_str()) {
        Err(e) => Err(e),
        Ok(_) => {
            if names_vault(rel_path) {
                let own = name_of_vault(vault);
                let file = rename_file(new_name, own.as_str());
                return if same(file.as_str(), own.as_str()) {
                    Ok(rel_path.to_owned())
                } else {
                    Err(FsError::new(FsErrorKind::InvalidInput, "无父目录"))
                };
            }
            let (parent, old_name) = parent_and_name(rel_path);
            let file = rename_file(new_name, old_name.as_str());
            if same(file.as_str(), old_name.as_str()) {
                Ok(rel_path.to_owned())
            } else {
                place(file.as_str(), parent.as_str(), taken)
            }
        },
    }
}

/// The text before the last slash of a path, empty where there is none.
pub open spec fn before_last_slash(rel: Seq<char>) -> Seq<char> {
    let i = text::last_index(rel, '/');
    if i >= 0 {
        rel.take(i)
    } else {
        Seq::empty()
    }
}

/// Whether `dir` is the entry `rel` or lies in it.
pub open spec fn is_inside(dir: Seq<char>, rel: Seq<char>) -> bool {
    dir == rel || text::starts_with(dir, rel + "/"@)
}

/// Whether `r` is the path that an entry has after a move into `new_dir_rel`.
pub open spec fn move_outcome<F: Fn(&String) -> bool>(
    r: Result<String, FsError>,
    taken: F,
    vault: Seq<char>,
    rel_path: Seq<char>,
    new_dir_rel: Seq<char>,
    old_facts: PathFacts,
    dir_facts: PathFacts,
) -> bool {
    let norm = text::trim_char(new_dir_rel, '/');
    let old = resolved(vault, rel_path, old_facts.nearest, old_facts.canon_vault@);
    let dir = dir_joined(vault, new_dir_rel);
    let target = resolved(vault, norm, dir_facts.nearest, dir_facts.canon_vault@);
    if old is Err {
        r is Err && r->Err_0@ == old->Err_0
    } else if dir is Err {
        r is Err && r->Err_0@ == dir->Err_0
    } else if !dir_facts.is_dir {
        r is Err && r->Err_0@ == fs_error(FsErrorKind::NotFound, "目标目录不存在"@)
    } else if norm.len() > 0 && target is Err {
        r is Err && r->Err_0@ == target->Err_0
    } else if is_inside(norm, rel_path) {
        r is Err && r->Err_0@ == into_itself()
    } else if norm == before_last_slash(rel_path) {
        r is Ok && r->Ok_0@ == rel_path
    } else if is_vault_itself(rel_path) {
        r is Err && r->Err_0@ == into_itself()
    } else {
        placed(r, taken, entry_name(rel_path), text::trimmed(new_dir_rel))
    }
}

/// Whether a move may look for free names: where the entry is in the vault and
/// not the vault itself.
pub open spec fn move_leave<F: Fn(&String) -> bool>(
    taken: F,
    vault: Seq<char>,
    rel_path: Seq<char>,
    facts: PathFacts,
) -> bool {
    resolved(vault, rel_path, facts.nearest, facts.canon_vault@) is Ok && !is_vault_itself(rel_path)
        ==> names_leave(taken, entry_name(rel_path), UNIQUE_CAP)
}

/// The path that an entry has after a move into `new_dir_rel`. An entry is not
/// moved into itself, and so the vault is not moved at all; the path as it was
/// given means that it lies there already and nothing is to be done.
pub fn move_entry<F: Fn(&String) -> bool>(
    vault: &str,
    rel_path: &str,
    new_dir_rel: &str,
    old_facts: &PathFacts,
    dir_facts: &PathFacts,
    taken: F,
) -> (r: Result<String, FsError>)
    requires
        move_leave(taken, vault@, rel_path@, *old_facts),
    ensures
        move_outcome(r, taken, vault@, rel_path@, new_dir_rel@, *old_facts, *dir_facts),
{
    match resolve_in_vault(
        vault,
        rel_path,
        &old_facts.nearest,
        old_facts.canon_vault.as_str(),
    ) {
        Err(e) => {
            return Err(e);
        },
        Ok(_) => {},
    }
    match dir_for(vault, new_dir_rel) {
        Err(e) => {
            return Err(e);
        },
        Ok(_) => {},
    }
    if !dir_facts.is_dir {
        return Err(FsError::new(FsErrorKind::NotFound, "目标目录不存在"));
    }
    let norm = strip_char(new_dir_rel, '/');
    if !norm.as_str().is_empty() {
        match resolve_in_vault(
            vault,
            norm.as_str(),
            &dir_facts.nearest,
            dir_facts.canon_vault.as_str(),
        ) {
            Err(e) => {
                return Err(e);
            },
            Ok(_) => {},
        }
    }
    let self_prefix = concat(rel_path, "/");
    if same(norm.as_str(), rel_path) || has_prefix(norm.as_str(), self_prefix.as_str()) {
        return Err(refuse_into_itself());
    }
    let v = to_chars(rel_path);
    let here: String = match rfind_char(&v, '/') {
        Some(i) => from_range(&v, 0, i),
        None => String::new(),
    };
    assert(here@ =~= before_last_slash(rel_path@));
    if same(norm.as_str(), here.as_str()) {
        return Ok(rel_path.to_owned());
    }
    if names_vault(rel_path) {
        return Err(refuse_into_itself());
    }
    let (_parent, name) = parent_and_name(rel_path);
    let dir = trim(new_dir_rel);
    place(name.as_str(), dir.as_str(), taken)
}

// ---------- where entries lie ----------

/// Whether a name can stand in a path: it is not empty, no `.` or `..`, and has
/// neither slashes nor backslashes.
pub open spec fn is_plain_name(n: Seq<char>) -> bool {
    &&& n.len() > 0
    &&& n != "."@
    &&& n != ".."@
    &&& forall|i: int| 0 <= i < n.len() ==> #[trigger] n[i] != '/' && n[i] != '\\'
}

/// Whether a directory is written plainly: without white space, slashes or a
/// segment `.` at its ends, and without backslashes.
pub open spec fn is_plain_dir(d: Seq<char>) -> bool {
    &&& d.len() > 0
    &&& !text::is_white(d[0])
    &&& !text::is_white(d.last())
    &&& d[0] != '/'
    &&& d.last() != '/'
    &&& d != seq!['.']
    &&& !(d.len() >= 2 && d[0] == '.' && d[1] == '/')
    &&& !(d.len() >= 2 && d[d.len() - 1] == '.' && d[d.len() - 2] == '/')
    &&& forall|i: int| 0 <= i < d.len() ==> #[trigger] d[i] != '\\'
}

/// The path of `n` in the directory `d`, the vault being the empty path.
pub open spec fn in_dir(d: Seq<char>, n: Seq<char>) -> Seq<char> {
    if d.len() == 0 {
        n
    } else {
        d.push('/') + n
    }
}

/// An entry lies in the directory before the last slash of its path, however
/// deep that is, and is named by what follows it; an entry of the vault itself
/// has no directory.
pub proof fn law_entry_lies_in_its_directory(d: Seq<char>, n: Seq<char>)
    requires
        d.len() == 0 || is_plain_dir(d),
        is_plain_name(n),
        !text::is_white(n[0]),
        !text::is_white(n.last()),
    ensures
        parent_rel(in_dir(d, n)) == d,
        entry_name(in_dir(d, n)) == n,
        !is_vault_itself(in_dir(d, n)),
        before_last_slash(in_dir(d, n)) == d,
        text::trimmed(in_dir(d, n)) == in_dir(d, n),
{
    reveal_strlit(".");
    assert("."@ =~= seq!['.']);
    let s = in_dir(d, n);
    text::lemma_last_index(s, '/');
    text::lemma_last_index(n, '/');
    assert(s.last() == n.last());
    if d.len() > 0 {
        assert(s[0] == d[0]);
        if s[s.len() - 2] == '/' && s.last() == '.' {
            assert(n.len() == 1) by {
                if n.len() > 1 {
                    assert(s[s.len() - 2] == n[n.len() - 2]);
                }
            }
            assert(n =~= seq!['.']);
        }
        if s[0] == '.' && s[1] == '/' {
            if d.len() > 1 {
                assert(d[1] == '/');
            } else {
                assert(d =~= seq!['.']);
            }
        }
        assert(core_path(s) == s);
        assert(s[d.len() as int] == '/');
        assert forall|i: int| d.len() < i < s.len() implies s[i] != '/' by {
            assert(s[i] == n[i - d.len() - 1]);
        }
        assert(text::last_index(s, '/') == d.len());
        assert(s.take(d.len() as int) =~= d);
        assert(s.skip(d.len() as int + 1) =~= n);
        assert(strip_trail_dots(d) == d);
    } else {
        assert(s == n);
        if n.len() >= 2 {
            assert(n[1] != '/' && n[n.len() - 2] != '/');
        }
        assert(core_path(s) == s);
        assert(text::last_index(n, '/') == -1) by {
            if text::last_index(n, '/') >= 0 {
                assert(n[text::last_index(n, '/')] == '/');
            }
        }
        assert(n.skip(0) =~= n);
        assert(parent_rel(s) =~= d);
        assert(before_last_slash(s) =~= d);
    }
}

/// Whether a name was found to be taken.
pub open spec fn is_taken<F: Fn(&String) -> bool>(taken: F, name: Seq<char>) -> bool {
    exists|s: String| #[trigger] call_ensures(taken, (&s,), true) && s@ == name
}

/// Whether `p` is the path of a free name in the directory `d`; it is the
/// wanted one, unless that is taken.
pub open spec fn is_free_in<F: Fn(&String) -> bool>(taken: F, d: Seq<char>, wanted: Seq<char>, p: Seq<char>) -> bool {
    exists|x: String|
        {
            &&& #[trigger] call_ensures(taken, (&x,), false)
            &&& p == in_dir(d, x@)
            &&& x@ == wanted || is_taken(taken, wanted)
        }
}

proof fn lemma_numbered_is_plain(name: Seq<char>, i: nat)
    requires
        is_plain_name(name),
    ensures
        forall|k: int|
            0 <= k < numbered_name(name, i).len() ==> #[trigger] numbered_name(name, i)[k] != '\\'
                && numbered_name(name, i)[k] != '/',
        numbered_name(name, i).len() > 0,
{
    reveal_strlit("-");
    text::law_path_ends_in_its_name(Seq::empty(), name);
    text::lemma_last_index(name, '.');
    text::lemma_number_of_decimal(i);
    let e = text::ext_start(name);
    let stem = name.take(e);
    let num = text::decimal(i);
    let ext = name.skip(e);
    let all = stem + "-"@ + num + ext;
    if i >= 2 {
        assert(numbered_name(name, i) == all);
        assert forall|k: int| 0 <= k < all.len() implies #[trigger] all[k] != '\\' && all[k] != '/' by {
            if k < stem.len() {
                assert(all[k] == name[k]);
            } else if k == stem.len() {
                assert(all[k] == '-');
            } else if k < stem.len() + 1 + num.len() {
                assert(all[k] == num[k - stem.len() - 1]);
                assert(text::is_digit(num[k - stem.len() - 1]));
            } else {
                assert(all[k] == name[k - 1 - num.len()]);
            }
        }
    }
}

proof fn lemma_entry_rel(d: Seq<char>, n: Seq<char>)
    requires
        d.len() == 0 || is_plain_dir(d),
        n.len() > 0,
        forall|k: int| 0 <= k < n.len() ==> #[trigger] n[k] != '\\' && n[k] != '/',
    ensures
        entry_rel(d, n) == in_dir(d, n),
{
    reveal_strlit("/");
    reveal_strlit(".");
    assert("/"@ =~= seq!['/']);
    assert("."@ =~= seq!['.']);
    let s = in_dir(d, n);
    assert(s.len() >= 2 && s[0] == '.' && s[1] == '/' ==> false) by {
        if d.len() > 1 {
            assert(s[0] == d[0] && s[1] == d[1]);
        } else if d.len() == 1 {
            assert(s[0] == d[0]);
            if d[0] == '.' {
                assert(d =~= seq!['.']);
            }
        }
    }
    assert(d.len() > 0 ==> d + "/"@ + n =~= s);
    assert(strip_lead_dots(s) == s);
    assert forall|i: int| 0 <= i < s.len() implies #[trigger] s[i] != '\\' by {
        if d.len() == 0 {
            assert(s[i] == n[i]);
        } else if i < d.len() {
            assert(s[i] == d[i]);
        } else if i > d.len() {
            assert(s[i] == n[i - d.len() - 1]);
        }
    }
    text::law_replacing_changes_one_character(s, '\\', '/');
}

proof fn lemma_placed<F: Fn(&String) -> bool>(r: Result<String, FsError>, taken: F, name: Seq<char>, d: Seq<char>)
    requires
        placed(r, taken, name, d),
        d.len() == 0 || is_plain_dir(d),
        is_plain_name(name),
    ensures
        match r {
            Ok(p) => is_free_in(taken, d, name, p@),
            Err(e) => is_taken(taken, name) && e.kind == FsErrorKind::AlreadyExists,
        },
{
    let u = choose|u: Result<String, FsError>|
        {
            &&& #[trigger] unique_outcome(u, taken, name, UNIQUE_CAP)
            &&& match u {
                Ok(name) => r is Ok && r->Ok_0@ == entry_rel(d, name@),
                Err(e) => r is Err && r->Err_0@ == e@,
            }
        };
    match u {
        Ok(x) => {
            let asked = choose|asked: Seq<String>|
                #![trigger is_first_free(taken, asked, x, name)]
                asked.len() < tries(UNIQUE_CAP) && is_first_free(taken, asked, x, name);
            lemma_numbered_is_plain(name, (asked.len() + 1) as nat);
            lemma_entry_rel(d, x@);
            if asked.len() > 0 {
                assert(asked[0]@ == numbered_name(name, 1));
                assert(is_taken(taken, name));
            }
            assert(call_ensures(taken, (&x,), false));
        },
        Err(e) => {
            let asked = choose|asked: Seq<String>|
                #![trigger all_taken(taken, asked, name)]
                asked.len() == tries(UNIQUE_CAP) && all_taken(taken, asked, name);
            assert(asked[0]@ == numbered_name(name, 1));
            assert(is_taken(taken, name));
        },
    }
}

/// A rename keeps an entry in its directory, however deep that is: its new path
/// is that directory and the new name, or one with a number where that is
/// taken. A new name without extension keeps the old one. An entry that has the
/// name already stays as it is.
pub proof fn law_rename_stays_in_the_directory<F: Fn(&String) -> bool>(
    vault: &str,
    rel_path: &str,
    new_name: &CleanName,
    facts: &PathFacts,
    taken: F,
    r: Result<String, FsError>,
    d: Seq<char>,
    stem: Seq<char>,
    ext: Seq<char>,
)
    requires
        call_ensures(rename_entry::<F>, (vault, rel_path, new_name, facts, taken), r),
        resolved(vault@, rel_path@, facts.nearest, facts.canon_vault@) is Ok,
        d.len() == 0 || is_plain_dir(d),
        stem.len() > 0,
        ext.len() > 0,
        forall|i: int| 0 <= i < ext.len() ==> #[trigger] ext[i] != '.',
        is_plain_name(stem + seq!['.'] + ext),
        !text::is_white(stem[0]),
        !text::is_white(ext.last()),
        rel_path@ == in_dir(d, stem + seq!['.'] + ext),
        is_plain_name(new_name.plain@),
        is_plain_name(new_name.with_ext@),
    ensures
        ({
            let old = stem + seq!['.'] + ext;
            let dotted = exists|i: int| 0 < i < new_name.raw@.len() && #[trigger] new_name.raw@[i] == '.';
            let new = if dotted {
                new_name.with_ext@
            } else {
                new_name.plain@ + seq!['.'] + ext
            };
            if new == old {
                r is Ok && r->Ok_0@ == rel_path@
            } else {
                match r {
                    Ok(p) => is_free_in(taken, d, new, p@),
                    Err(e) => is_taken(taken, new) && e.kind == FsErrorKind::AlreadyExists,
                }
            }
        }),
{
    let old = stem + seq!['.'] + ext;
    assert(old[0] == stem[0]);
    assert(old.last() == ext.last());
    law_entry_lies_in_its_directory(d, old);
    text::law_extension_follows_the_last_dot(stem, ext);
    reveal_strlit(".");
    reveal_strlit("..");
    assert("."@ =~= seq!['.']);
    assert(old.skip(stem.len() as int + 1) =~= ext);
    text::lemma_last_index(new_name.raw@, '.');
    let last = text::last_index(new_name.raw@, '.');
    let dotted = exists|i: int| 0 < i < new_name.raw@.len() && #[trigger] new_name.raw@[i] == '.';
    if last > 0 {
        assert(new_name.raw@[last] == '.');
    }
    let plain = new_name.plain@;
    let new = if dotted {
        new_name.with_ext@
    } else {
        plain + seq!['.'] + ext
    };
    assert(renamed_file(*new_name, old) == new);
    if !dotted {
        assert forall|i: int| 0 <= i < new.len() implies #[trigger] new[i] != '/' && new[i] != '\\' by {
            if i < plain.len() {
                assert(new[i] == plain[i]);
            } else if i > plain.len() {
                assert(new[i] == ext[i - plain.len() - 1]);
                assert(old[i - plain.len() + stem.len()] == ext[i - plain.len() - 1]);
            }
        }
        assert(new.len() == plain.len() + 1 + ext.len());
        assert("."@.len() == 1 && ".."@.len() == 2);
        assert(new.len() > 2);
    }
    if new != old {
        lemma_placed(r, taken, new, d);
    }
}

/// A rename of an entry without extension, as folders are, gives it the new name
/// as it is, in the same directory.
pub proof fn law_rename_of_a_folder<F: Fn(&String) -> bool>(
    vault: &str,
    rel_path: &str,
    new_name: &CleanName,
    facts: &PathFacts,
    taken: F,
    r: Result<String, FsError>,
    d: Seq<char>,
    n: Seq<char>,
)
    requires
        call_ensures(rename_entry::<F>, (vault, rel_path, new_name, facts, taken), r),
        resolved(vault@, rel_path@, facts.nearest, facts.canon_vault@) is Ok,
        d.len() == 0 || is_plain_dir(d),
        is_plain_name(n),
        !text::is_white(n[0]),
        !text::is_white(n.last()),
        forall|i: int| 0 <= i < n.len() ==> #[trigger] n[i] != '.',
        rel_path@ == in_dir(d, n),
        is_plain_name(new_name.plain@),
        is_plain_name(new_name.with_ext@),
    ensures
        ({
            let dotted = exists|i: int| 0 < i < new_name.raw@.len() && #[trigger] new_name.raw@[i] == '.';
            let new = if dotted {
                new_name.with_ext@
            } else {
                new_name.plain@
            };
            if new == n {
                r is Ok && r->Ok_0@ == rel_path@
            } else {
                match r {
                    Ok(p) => is_free_in(taken, d, new, p@),
                    Err(e) => is_taken(taken, new) && e.kind == FsErrorKind::AlreadyExists,
                }
            }
        }),
{
    law_entry_lies_in_its_directory(d, n);
    text::law_extension_follows_the_last_dot(n, n);
    text::lemma_last_index(new_name.raw@, '.');
    let last = text::last_index(new_name.raw@, '.');
    let dotted = exists|i: int| 0 < i < new_name.raw@.len() && #[trigger] new_name.raw@[i] == '.';
    if last > 0 {
        assert(new_name.raw@[last] == '.');
    }
    let new = if dotted {
        new_name.with_ext@
    } else {
        new_name.plain@
    };
    assert(renamed_file(*new_name, n) == new);
    if new != n {
        lemma_placed(r, taken, new, d);
    }
}

/// A move puts an entry under its name into the new directory, or under one with
/// a number where that is taken. An entry that lies there already stays as it
/// is, and none goes into itself.
pub proof fn law_move_keeps_the_name<F: Fn(&String) -> bool>(
    vault: &str,
    rel_path: &str,
    new_dir: &str,
    old_facts: &PathFacts,
    dir_facts: &PathFacts,
    taken: F,
    r: Result<String, FsError>,
    d: Seq<char>,
    n: Seq<char>,
)
    requires
        call_ensures(move_entry::<F>, (vault, rel_path, new_dir, old_facts, dir_facts, taken), r),
        resolved(vault@, rel_path@, old_facts.nearest, old_facts.canon_vault@) is Ok,
        d.len() == 0 || is_plain_dir(d),
        is_plain_name(n),
        !text::is_white(n[0]),
        !text::is_white(n.last()),
        rel_path@ == in_dir(d, n),
        new_dir@.len() == 0 || is_plain_dir(new_dir@),
        new_dir@.len() > 0 ==> resolved(vault@, new_dir@, dir_facts.nearest, dir_facts.canon_vault@) is Ok,
    ensures
        !dir_facts.is_dir ==> r is Err && r->Err_0.kind == FsErrorKind::NotFound,
        dir_facts.is_dir && (new_dir@ == rel_path@ || exists|t: Seq<char>| new_dir@ == #[trigger] (
        rel_path@.push('/') + t)) ==> r is Err && r->Err_0.kind == FsErrorKind::InvalidInput,
        dir_facts.is_dir && new_dir@ == d ==> r is Ok && r->Ok_0@ == rel_path@,
        dir_facts.is_dir && new_dir@ != d && new_dir@ != rel_path@ && !(exists|t: Seq<char>|
            new_dir@ == #[trigger] (rel_path@.push('/') + t)) ==> match r {
            Ok(p) => is_free_in(taken, new_dir@, n, p@),
            Err(e) => is_taken(taken, n) && e.kind == FsErrorKind::AlreadyExists,
        },
{
    reveal_strlit("/");
    assert("/"@ =~= seq!['/']);
    let to = new_dir@;
    law_entry_lies_in_its_directory(d, n);
    assert(text::trim_char(to, '/') == to);
    assert(text::trimmed(to) == to);
    let rel = rel_path@;
    assert(rel + "/"@ =~= rel.push('/'));
    text::law_parts_of_a_text(to, rel.push('/'));
    if to == d {
        assert(!is_inside(to, rel)) by {
            assert(to.len() < rel.len());
        }
    }
    if dir_facts.is_dir && to != d && !is_inside(to, rel) {
        lemma_placed(r, taken, n, to);
    }
}

proof fn lemma_unreserved_is_plain(name: Seq<char>)
    requires
        is_plain_name(name),
    ensures
        is_plain_name(unreserved(name)),
{
    reveal_strlit("n-");
    reveal_strlit(".");
    reveal_strlit("..");
    if is_reserved(name) {
        let lead = "n-"@;
        let s = lead + name;
        assert(s[0] == 'n');
        assert("."@[0] == '.' && ".."@[0] == '.');
        assert forall|i: int| 0 <= i < s.len() implies #[trigger] s[i] != '/' && s[i] != '\\' by {
            if i < 2 {
                assert(s[i] == lead[i]);
            } else {
                assert(s[i] == name[i - 2]);
            }
        }
    }
}

/// A new note lies in the directory that was asked for, under its name, which
/// gets the extension of notes where it has none, or under one with a number
/// where that is taken.
pub proof fn law_new_note_lies_in_the_directory<F: Fn(&String) -> bool>(
    vault: &str,
    dir: &str,
    name: &str,
    facts: &PathFacts,
    taken: F,
    r: Result<Node, FsError>,
)
    requires
        call_ensures(create_note::<F>, (vault, dir, name, facts, taken), r),
        dir@.len() == 0 || is_plain_dir(dir@),
        dir@.len() > 0 ==> resolved(vault@, dir@, facts.nearest, facts.canon_vault@) is Ok,
        is_plain_name(name@),
    ensures
        !facts.is_dir ==> r is Err && r->Err_0.kind == FsErrorKind::NotFound,
        facts.is_dir ==> {
            let given = if is_reserved(name@) {
                "n-"@ + name@
            } else {
                name@
            };
            let file = if given.len() >= 3 && given.skip(given.len() - 3) == ".md"@ {
                given
            } else {
                given + ".md"@
            };
            match r {
                Ok(node) => {
                    &&& is_free_in(taken, dir@, file, node@.path)
                    &&& node@.name == file
                    &&& node@.kind == "note"@
                    &&& node@.title == Some(stem_of(file))
                },
                Err(e) => is_taken(taken, file) && e.kind == FsErrorKind::AlreadyExists,
            }
        },
{
    reveal_strlit(".md");
    reveal_strlit(".");
    reveal_strlit("..");
    assert(".md"@.len() == 3);
    assert("."@ =~= seq!['.']);
    let given = unreserved(name@);
    lemma_unreserved_is_plain(name@);
    let file = note_file_name(given);
    assert(text::trimmed(dir@) == dir@);
    if facts.is_dir {
        let ext = ".md"@;
        assert forall|i: int| 0 <= i < file.len() implies #[trigger] file[i] != '/' && file[i] != '\\' by {
            if i < given.len() {
                assert(file[i] == given[i]);
            } else {
                assert(file[i] == ext[i - given.len()]);
            }
        }
        assert(is_plain_name(file));
        let p = choose|p: Result<String, FsError>|
            {
                &&& #[trigger] placed(p, taken, file, dir@)
                &&& match p {
                    Err(e) => r is Err && r->Err_0@ == e@,
                    Ok(rel) => r is Ok && r->Ok_0@ == new_node(rel@, file, true),
                }
            };
        lemma_placed(p, taken, file, dir@);
    }
}

/// A new folder lies in the directory that was asked for, under its name, or
/// under one with a number where that is taken.
pub proof fn law_new_folder_lies_in_the_directory<F: Fn(&String) -> bool>(
    vault: &str,
    dir: &str,
    name: &str,
    facts: &PathFacts,
    taken: F,
    r: Result<Node, FsError>,
)
    requires
        call_ensures(create_folder::<F>, (vault, dir, name, facts, taken), r),
        dir@.len() == 0 || is_plain_dir(dir@),
        dir@.len() > 0 ==> resolved(vault@, dir@, facts.nearest, facts.canon_vault@) is Ok,
        is_plain_name(name@),
    ensures
        !facts.is_dir ==> r is Err && r->Err_0.kind == FsErrorKind::NotFound,
        facts.is_dir ==> match r {
            Ok(node) => {
                &&& is_free_in(taken, dir@, unreserved(name@), node@.path)
                &&& node@.name == unreserved(name@)
                &&& node@.kind == "folder"@
                &&& node@.title is None
            },
            Err(e) => is_taken(taken, unreserved(name@)) && e.kind == FsErrorKind::AlreadyExists,
        },
{
    reveal_strlit(".");
    assert("."@ =~= seq!['.']);
    assert(text::trimmed(dir@) == dir@);
    if facts.is_dir {
        let p = choose|p: Result<String, FsError>|
            {
                &&& #[trigger] placed(p, taken, unreserved(name@), dir@)
                &&& match p {
                    Err(e) => r is Err && r->Err_0@ == e@,
                    Ok(rel) => r is Ok && r->Ok_0@ == new_node(rel@, unreserved(name@), false),
                }
            };
        lemma_unreserved_is_plain(name@);
        lemma_placed(p, taken, unreserved(name@), dir@);
    }
}

/// The names beside a taken one are numbered from 2 on, before the extension;
/// the first that is free is taken, and no more are tried than allowed.
pub proof fn law_names_are_numbered_in_turn<F: Fn(&String) -> bool>(
    file: &str,
    cap: u32,
    taken: F,
    r: Result<String, FsError>,
    stem: Seq<char>,
    ext: Seq<char>,
)
    requires
        call_ensures(unique_target_with_cap::<F>, (file, cap, taken), r),
        stem.len() > 0,
        forall|i: int| 0 <= i < ext.len() ==> #[trigger] ext[i] != '.',
        file@ == stem + seq!['.'] + ext,
        is_plain_name(file@),
    ensures
        match r {
            Ok(name) => call_ensures(taken, (&name,), false) && exists|n: nat|
                {
                    &&& 1 <= n
                    &&& n == 1 || n <= cap
                    &&& name@ == #[trigger] name_of_turn(stem, ext, n)
                    &&& forall|m: nat| 1 <= m < n ==> is_taken(taken, #[trigger] name_of_turn(stem, ext, m))
                },
            Err(e) => e.kind == FsErrorKind::AlreadyExists && forall|m: nat|
                1 <= m && (m == 1 || m <= cap) ==> is_taken(taken, #[trigger] name_of_turn(stem, ext, m)),
        },
{
    reveal_strlit("-");
    assert("-"@ =~= seq!['-']);
    text::law_path_ends_in_its_name(Seq::empty(), file@);
    text::law_extension_follows_the_last_dot(stem, ext);
    assert(file@.take(stem.len() as int) =~= stem);
    assert(file@.skip(stem.len() as int) =~= seq!['.'] + ext);
    assert forall|m: nat| 1 <= m implies numbered_name(file@, m) == #[trigger] name_of_turn(stem, ext, m) by {
        assert(numbered_name(file@, m) =~= name_of_turn(stem, ext, m));
    }
    match r {
        Ok(name) => {
            let asked = choose|asked: Seq<String>|
                #![trigger is_first_free(taken, asked, name, file@)]
                asked.len() < tries(cap) && is_first_free(taken, asked, name, file@);
            let n = (asked.len() + 1) as nat;
            assert(name@ == name_of_turn(stem, ext, n));
            assert forall|m: nat| 1 <= m < n implies is_taken(taken, #[trigger] name_of_turn(stem, ext, m)) by {
                assert(asked[m - 1]@ == numbered_name(file@, m));
            }
        },
        Err(e) => {
            let asked = choose|asked: Seq<String>|
                #![trigger all_taken(taken, asked, file@)]
                asked.len() == tries(cap) && all_taken(taken, asked, file@);
            assert forall|m: nat| 1 <= m && (m == 1 || m <= cap) implies is_taken(
                taken,
                #[trigger] name_of_turn(stem, ext, m),
            ) by {
                assert(asked[m - 1]@ == numbered_name(file@, m));
            }
        },
    }
}

/// The name that is tried in turn `n` for a file: its own, then with a number.
pub open spec fn name_of_turn(stem: Seq<char>, ext: Seq<char>, n: nat) -> Seq<char> {
    if n <= 1 {
        stem + seq!['.'] + ext
    } else {
        stem + seq!['-'] + text::decimal(n) + (seq!['.'] + ext)
    }
}

/// A path is taken into the vault exactly if none of its segments is empty or
/// leads upwards, it has no backslash, and it is not the vault itself; it then
/// lies behind the vault and a slash.
pub proof fn law_paths_lie_behind_the_vault(vault: Seq<char>, segs: Seq<Seq<char>>)
    requires
        vault.len() > 0,
        vault.last() != '/',
        segs.len() > 0,
        forall|i: int, j: int| 0 <= i < segs.len() && 0 <= j < segs[i].len() ==> #[trigger] segs[i][j] != '/',
        ({
            let rel = text::joined(segs, '/');
            rel.len() > 0 ==> !text::is_white(rel[0]) && !text::is_white(rel.last())
        }),
    ensures
        safe_joined(vault, text::joined(segs, '/')) is Ok <==> {
            &&& segs != seq![seq!['.']]
            &&& !text::joined(segs, '/').contains('\\')
            &&& forall|i: int| 0 <= i < segs.len() ==> (#[trigger] segs[i]).len() > 0 && segs[i] != seq!['.', '.']
        },
        safe_joined(vault, text::joined(segs, '/')) matches Ok(p) ==> p == vault.push('/') + text::joined(
            segs,
            '/',
        ),
{
    reveal_strlit("/");
    reveal_strlit(".");
    reveal_strlit("..");
    assert("/"@ =~= seq!['/']);
    assert("."@ =~= seq!['.']);
    assert(".."@ =~= seq!['.', '.']);
    let rel = text::joined(segs, '/');
    text::law_split_undoes_joining(segs, '/');
    assert(vault + "/"@ + rel =~= vault.push('/') + rel);
    if rel == "."@ {
        assert(text::split(rel, '/') =~= seq![seq!['.']]) by {
            text::lemma_first_index(rel, '/');
        }
    }
    if segs == seq![seq!['.']] {
        assert(rel == "."@);
    }
    if forall|i: int| 0 <= i < segs.len() ==> (#[trigger] segs[i]).len() > 0 && segs[i] != seq!['.', '.'] {
        assert(segs[0].len() > 0);
        assert(rel[0] == segs[0][0]);
        assert(segs[0][0] != '/');
        if text::starts_with(rel, "/"@) {
            assert(rel.take(1)[0] == '/');
        }
        assert forall|i: int| 0 <= i < text::split(rel, '/').len() implies is_plain_segment(
            #[trigger] text::split(rel, '/')[i],
        ) by {}
    }
    if is_safe_rel(rel) {
        assert forall|i: int| 0 <= i < segs.len() implies (#[trigger] segs[i]).len() > 0 && segs[i] != seq![
            '.',
            '.',
        ] by {
            assert(is_plain_segment(text::split(rel, '/')[i]));
        }
    }
}

/// No link leads out of the vault: a path is resolved only where the nearest
/// entry that exists is the vault or lies below it, segment by segment.
pub proof fn law_links_do_not_lead_out(
    vault: Seq<char>,
    rel: Seq<char>,
    at: String,
    base: Seq<Seq<char>>,
    segs: Seq<Seq<char>>,
)
    requires
        are_names(base),
        are_names(segs),
        at@ == seq!['/'] + text::joined(segs, '/'),
    ensures
        resolved(vault, rel, Nearest::Canonical(at), seq!['/'] + text::joined(base, '/')) is Ok <==> safe_joined(
            vault,
            rel,
        ) is Ok && base.is_prefix_of(segs),
        resolved(vault, rel, Nearest::Missing, seq!['/'] + text::joined(base, '/')) is Err,
        resolved(vault, rel, Nearest::Canonical(at), seq!['/'] + text::joined(base, '/')) matches Ok(p) ==> Ok::<
            Seq<char>,
            FsErrorView,
        >(p) == safe_joined(vault, rel),
{
    lemma_components(base);
    lemma_components(segs);
}

/// Whether these can be the segments of an absolute path in its plainest form.
pub open spec fn are_names(segs: Seq<Seq<char>>) -> bool {
    &&& segs.len() > 0
    &&& forall|i: int| 0 <= i < segs.len() ==> (#[trigger] segs[i]).len() > 0 && segs[i] != seq!['.']
    &&& forall|i: int, j: int| 0 <= i < segs.len() && 0 <= j < segs[i].len() ==> #[trigger] segs[i][j] != '/'
}

proof fn lemma_components(segs: Seq<Seq<char>>)
    requires
        are_names(segs),
    ensures
        components(seq!['/'] + text::joined(segs, '/')) == segs,
{
    reveal_strlit(".");
    assert("."@ =~= seq!['.']);
    let none = Seq::<char>::empty();
    let all = seq![none] + segs;
    assert(all.drop_first() =~= segs);
    assert(none.push('/') =~= seq!['/']);
    assert forall|i: int, j: int| 0 <= i < all.len() && 0 <= j < all[i].len() implies #[trigger] all[i][j] != '/' by {
        if i > 0 {
            assert(all[i] == segs[i - 1]);
            assert(segs[i - 1][j] != '/');
        }
    }
    text::law_split_undoes_joining(all, '/');
    let p = |c: Seq<char>| c.len() > 0 && c != "."@;
    lemma_filter_keeps_all(segs, p);
    lemma_filter_drops_one(none, p);
    Seq::filter_distributes_over_add(seq![none], segs, p);
    assert(seq![none].filter(p) + segs.filter(p) =~= segs);
    assert(all.filter(p) == segs);
}

proof fn lemma_filter_drops_one(x: Seq<char>, p: spec_fn(Seq<char>) -> bool)
    requires
        !p(x),
    ensures
        seq![x].filter(p).len() == 0,
{
    reveal(Seq::filter);
    let one = seq![x];
    let none = one.drop_last();
    assert(none.len() == 0);
    assert(none.filter(p).len() == 0);
    assert(one.last() == x);
    assert(one.filter(p) == none.filter(p));
}

proof fn lemma_filter_keeps_all(s: Seq<Seq<char>>, p: spec_fn(Seq<char>) -> bool)
    requires
        forall|i: int| 0 <= i < s.len() ==> p(#[trigger] s[i]),
    ensures
        s.filter(p) == s,
    decreases s.len(),
{
    reveal(Seq::filter);
    if s.len() > 0 {
        assert forall|i: int| 0 <= i < s.drop_last().len() implies p(#[trigger] s.drop_last()[i]) by {
            assert(p(s[i]));
        }
        lemma_filter_keeps_all(s.drop_last(), p);
        assert(p(s[s.len() - 1]));
        assert(s =~= s.drop_last().push(s.last()));
    } else {
        assert(s.filter(p) =~= s);
    }
}

// ---------- titles ----------

/// The position of the first `p` in `s`, or the length of `s`.
pub open spec fn part_index(s: Seq<char>, p: Seq<char>) -> int
    decreases s.len(),
{
    if s.len() == 0 || text::starts_with(s, p) {
        0
    } else {
        1 + part_index(s.drop_first(), p)
    }
}

/// The title that a line of front matter gives; empty where it gives none.
pub open spec fn title_of_line(line: Seq<char>) -> Seq<char> {
    if text::starts_with(line, "title:"@) {
        text::trim_char(text::trim_char(text::trimmed(line.skip("title:"@.len() as int)), '"'), '\'')
    } else {
        Seq::empty()
    }
}

/// The title that the first of `lines` with a title gives.
pub open spec fn title_of_lines(lines: Seq<Seq<char>>) -> Option<Seq<char>>
    decreases lines.len(),
{
    if lines.len() == 0 {
        None
    } else if title_of_line(lines[0]).len() > 0 {
        Some(title_of_line(lines[0]))
    } else {
        title_of_lines(lines.drop_first())
    }
}

/// The title in the front matter of a note: the lines between `---` at its
/// very start and the next line that starts with `---`.
pub open spec fn frontmatter_title(content: Seq<char>) -> Option<Seq<char>> {
    if !text::starts_with(content, "---\n"@) {
        None
    } else {
        let rest = content.skip("---\n"@.len() as int);
        if !text::has_part(rest, "\n---"@) {
            None
        } else {
            title_of_lines(text::split(rest.take(part_index(rest, "\n---"@)), '\n'))
        }
    }
}

/// The title in the front matter of a note, if there is one.
pub fn extract_frontmatter_title(content: &str) -> (r: Option<String>)
    ensures
        text::opt_view(r) == frontmatter_title(content@),
{
    let rest: String = match strip_prefix(content, "---\n") {
        None => {
            return None;
        },
        Some(t) => t,
    };
    if !contains_part(rest.as_str(), "\n---") {
        return None;
    }
    let v = to_chars(rest.as_str());
    let end = find_part(&v, "\n---");
    let head = from_range(&v, 0, end);
    assert(head@ =~= rest@.take(end as int));
    let lines = split_char(head.as_str(), '\n');
    let mut i: usize = 0;
    let ghost ls = text::views(lines@);
    assert(ls.skip(0) =~= ls);
    while i < lines.len()
        invariant
            i <= lines.len(),
            ls == text::views(lines@),
            frontmatter_title(content@) == title_of_lines(ls),
            title_of_lines(ls) == title_of_lines(ls.skip(i as int)),
        decreases lines.len() - i,
    {
        let line = &lines[i];
        assert(ls.skip(i as int)[0] == line@);
        assert(ls.skip(i as int).drop_first() =~= ls.skip(i + 1));
        if let Some(value) = strip_prefix(line.as_str(), "title:") {
            let a = trim(value.as_str());
            let b = strip_char(a.as_str(), '"');
            let c = strip_char(b.as_str(), '\'');
            if !c.as_str().is_empty() {
                return Some(c);
            }
        }
        i = i + 1;
    }
    None
}

/// A value in front matter as it is shown: without white space and quotes
/// around it.
pub open spec fn bare_value(v: Seq<char>) -> Seq<char> {
    text::trim_char(text::trim_char(text::trimmed(v), '"'), '\'')
}

/// Whether a line of front matter gives the title `t`.
pub open spec fn gives_title(line: Seq<char>, t: Seq<char>) -> bool {
    exists|v: Seq<char>| line == #[trigger] ("title:"@ + v) && t == bare_value(v) && t.len() > 0
}

/// A note with front matter: lines between the marks, and what follows.
pub open spec fn with_front_matter(lines: Seq<Seq<char>>, tail: Seq<char>) -> Seq<char> {
    "---\n"@ + (text::joined(lines, '\n') + ("\n---"@ + tail))
}

proof fn lemma_title_of_line(line: Seq<char>)
    ensures
        forall|t: Seq<char>|
            #[trigger] gives_title(line, t) <==> title_of_line(line) == t && t.len() > 0,
{
    let p = "title:"@;
    assert forall|t: Seq<char>| #[trigger] gives_title(line, t) implies title_of_line(line) == t && t.len() > 0 by {
        let v = choose|v: Seq<char>| line == #[trigger] (p + v) && t == bare_value(v) && t.len() > 0;
        assert(line.take(p.len() as int) =~= p);
        assert(line.skip(p.len() as int) =~= v);
    }
    if title_of_line(line).len() > 0 {
        let v = line.skip(p.len() as int);
        assert(line =~= p + v);
        assert(gives_title(line, title_of_line(line)));
    }
}

proof fn lemma_title_of_lines(lines: Seq<Seq<char>>, k: int)
    requires
        0 <= k <= lines.len(),
        forall|j: int| 0 <= j < k ==> title_of_line(#[trigger] lines[j]).len() == 0,
        k < lines.len() ==> title_of_line(lines[k]).len() > 0,
    ensures
        k < lines.len() ==> title_of_lines(lines) == Some(title_of_line(lines[k])),
        k == lines.len() ==> title_of_lines(lines) is None,
    decreases lines.len(),
{
    if lines.len() > 0 && k > 0 {
        assert(title_of_line(lines[0]).len() == 0);
        let rest = lines.drop_first();
        assert forall|j: int| 0 <= j < k - 1 implies title_of_line(#[trigger] rest[j]).len() == 0 by {
            assert(title_of_line(lines[j + 1]).len() == 0);
        }
        lemma_title_of_lines(rest, k - 1);
    }
}

proof fn lemma_part_index_behind(a: Seq<char>, b: Seq<char>, p: Seq<char>)
    requires
        p.len() > 0,
        forall|i: int| 0 <= i < a.len() ==> #[trigger] a[i] != p[0],
    ensures
        part_index(a + b, p) == a.len() + part_index(b, p),
    decreases a.len(),
{
    let s = a + b;
    if a.len() > 0 {
        assert(s[0] == a[0]);
        if text::starts_with(s, p) {
            assert(s.take(p.len() as int)[0] == a[0]);
        }
        assert(s.drop_first() =~= a.drop_first() + b);
        assert forall|i: int| 0 <= i < a.drop_first().len() implies #[trigger] a.drop_first()[i] != p[0] by {
            assert(a[i + 1] != p[0]);
        }
        lemma_part_index_behind(a.drop_first(), b, p);
    } else {
        assert(s =~= b);
    }
}

proof fn lemma_front_matter_ends(lines: Seq<Seq<char>>, tail: Seq<char>)
    requires
        lines.len() > 0,
        forall|i: int, j: int| 0 <= i < lines.len() && 0 <= j < lines[i].len() ==> #[trigger] lines[i][j] != '\n',
        forall|i: int| 1 <= i < lines.len() ==> !text::starts_with(#[trigger] lines[i], "---"@),
    ensures
        part_index(text::joined(lines, '\n') + ("\n---"@ + tail), "\n---"@) == text::joined(
            lines,
            '\n',
        ).len(),
        text::has_part(text::joined(lines, '\n') + ("\n---"@ + tail), "\n---"@),
    decreases lines.len(),
{
    reveal_strlit("\n---");
    reveal_strlit("---");
    let p = "\n---"@;
    let end = p + tail;
    let all = text::joined(lines, '\n');
    let s = all + end;
    assert(s.subrange(all.len() as int, (all.len() + p.len()) as int) =~= p);
    assert(text::stands_at(s, p, all.len() as int));
    assert forall|i: int| 0 <= i < lines[0].len() implies #[trigger] lines[0][i] != p[0] by {}
    if lines.len() == 1 {
        assert(end.take(p.len() as int) =~= p);
        lemma_part_index_behind(lines[0], end, p);
    } else {
        let rest = lines.drop_first();
        assert forall|i: int, j: int| 0 <= i < rest.len() && 0 <= j < rest[i].len() implies #[trigger] rest[i][j]
            != '\n' by {
            assert(rest[i] == lines[i + 1]);
            assert(lines[i + 1][j] != '\n');
        }
        assert forall|i: int| 1 <= i < rest.len() implies !text::starts_with(#[trigger] rest[i], "---"@) by {
            assert(rest[i] == lines[i + 1]);
        }
        lemma_front_matter_ends(rest, tail);
        let t = text::joined(rest, '\n') + end;
        let u = seq!['\n'] + t;
        assert(s =~= lines[0] + u);
        lemma_part_index_behind(lines[0], u, p);
        let next = lines[1];
        assert(!text::starts_with(next, "---"@));
        assert(next == rest[0]);
        if text::starts_with(u, p) {
            assert(u.take(4)[1] == '-' && u.take(4)[2] == '-' && u.take(4)[3] == '-');
            assert(t[0] == '-' && t[1] == '-' && t[2] == '-');
            assert(next.len() < t.len());
            assert(t[next.len() as int] == '\n');
            assert forall|j: int| 0 <= j < next.len() implies next[j] == t[j] by {}
            assert(next.len() >= 3);
            assert(next.take(3) =~= "---"@);
            assert(false);
        }
        assert(u.drop_first() =~= t);
        assert(part_index(u, p) == 1 + part_index(t, p));
    }
}

/// A note is titled by the first line of its front matter that gives a title,
/// whatever other lines stand before it. The front matter goes from the first
/// line, which is `---`, to the next line that starts with `---`. Where no line
/// gives one, there is no title.
pub proof fn law_first_title_line_counts(lines: Seq<Seq<char>>, tail: Seq<char>)
    requires
        lines.len() > 0,
        forall|i: int, j: int| 0 <= i < lines.len() && 0 <= j < lines[i].len() ==> #[trigger] lines[i][j] != '\n',
        forall|i: int| 1 <= i < lines.len() ==> !text::starts_with(#[trigger] lines[i], "---"@),
    ensures
        forall|k: int, t: Seq<char>|
            0 <= k < lines.len() && #[trigger] gives_title(lines[k], t) && (forall|j: int, u: Seq<char>|
                0 <= j < k ==> !(#[trigger] gives_title(lines[j], u))) ==> frontmatter_title(
                with_front_matter(lines, tail),
            ) == Some(t),
        (forall|j: int, u: Seq<char>| 0 <= j < lines.len() ==> !(#[trigger] gives_title(lines[j], u)))
            ==> frontmatter_title(with_front_matter(lines, tail)) is None,
{
    reveal_strlit("---\n");
    let content = with_front_matter(lines, tail);
    let rest = text::joined(lines, '\n') + ("\n---"@ + tail);
    let mark = "---\n"@;
    assert(content.take(mark.len() as int) =~= mark);
    assert(content.skip(mark.len() as int) =~= rest);
    lemma_front_matter_ends(lines, tail);
    let head = text::joined(lines, '\n');
    assert(rest.take(head.len() as int) =~= head);
    text::law_split_undoes_joining(lines, '\n');
    assert(frontmatter_title(content) == title_of_lines(lines));
    assert forall|k: int, t: Seq<char>|
        0 <= k < lines.len() && #[trigger] gives_title(lines[k], t) && (forall|j: int, u: Seq<char>|
            0 <= j < k ==> !(#[trigger] gives_title(lines[j], u))) implies title_of_lines(lines) == Some(t) by {
        lemma_title_of_line(lines[k]);
        assert forall|j: int| 0 <= j < k implies title_of_line(#[trigger] lines[j]).len() == 0 by {
            lemma_title_of_line(lines[j]);
            assert(!gives_title(lines[j], title_of_line(lines[j])));
        }
        lemma_title_of_lines(lines, k);
    }
    if forall|j: int, u: Seq<char>| 0 <= j < lines.len() ==> !(#[trigger] gives_title(lines[j], u)) {
        assert forall|j: int| 0 <= j < lines.len() implies title_of_line(#[trigger] lines[j]).len() == 0 by {
            lemma_title_of_line(lines[j]);
            assert(!gives_title(lines[j], title_of_line(lines[j])));
        }
        lemma_title_of_lines(lines, lines.len() as int);
    }
}

/// A note without front matter has no title of its own: it does not start with
/// the line `---`, or no later line starts with `---`.
pub proof fn law_title_needs_front_matter(content: Seq<char>)
    ensures
        (forall|rest: Seq<char>| content != #[trigger] ("---\n"@ + rest)) ==> frontmatter_title(content) is None,
        forall|rest: Seq<char>|
            content == #[trigger] ("---\n"@ + rest) && !text::has_part(rest, "\n---"@) ==> frontmatter_title(
                content,
            ) is None,
{
    let mark = "---\n"@;
    if text::starts_with(content, mark) {
        assert(content =~= mark + content.skip(mark.len() as int));
    }
    assert forall|rest: Seq<char>|
        content == #[trigger] (mark + rest) && !text::has_part(rest, "\n---"@) implies frontmatter_title(
        content,
    ) is None by {
        assert(content.skip(mark.len() as int) =~= rest);
    }
}

/// A note is listed under the title in its front matter, else under the name of
/// its file without the extension.
pub proof fn law_notes_have_a_title(content: Seq<char>, dir: Seq<char>, stem: Seq<char>, ext: Seq<char>)
    requires
        stem.len() > 0,
        forall|i: int| 0 <= i < stem.len() ==> #[trigger] stem[i] != '/',
        forall|i: int| 0 <= i < ext.len() ==> #[trigger] ext[i] != '/' && ext[i] != '.',
        stem != "."@,
    ensures
        frontmatter_title(content) matches Some(t) ==> title_of(content, dir) == t,
        frontmatter_title(content) is None ==> {
            &&& title_of(content, stem + seq!['.'] + ext) == stem
            &&& title_of(content, dir + seq!['/'] + (stem + seq!['.'] + ext)) == stem
        },
{
    let name = stem + seq!['.'] + ext;
    reveal_strlit(".");
    reveal_strlit("..");
    assert(name[stem.len() as int] == '.');
    assert("."@.len() == 1 && ".."@.len() == 2);
    assert(name.len() == stem.len() + 1 + ext.len());
    assert(name != "."@);
    assert(name != ".."@) by {
        if name == ".."@ {
            assert(stem.len() <= 1);
            assert(stem[0] == name[0]);
            assert(stem =~= "."@);
        }
    }
    assert forall|i: int| 0 <= i < name.len() implies #[trigger] name[i] != '/' by {
        if i > stem.len() {
            assert(name[i] == ext[i - stem.len() - 1]);
        } else if i < stem.len() {
            assert(name[i] == stem[i]);
        }
    }
    text::law_path_ends_in_its_name(dir, name);
    text::law_extension_follows_the_last_dot(stem, ext);
    assert(name.take(stem.len() as int) =~= stem);
}

/// The position of the first `p` in `v`, or its length.
pub fn find_part(v: &Vec<char>, p: &str) -> (r: usize)
    ensures
        r == part_index(v@, p@),
        r <= v.len(),
{
    let w = to_chars(p);
    let mut i: usize = 0;
    assert(v@.skip(0) =~= v@);
    while i < v.len()
        invariant
            i <= v.len(),
            w@ == p@,
            part_index(v@, p@) == i + part_index(v@.skip(i as int), p@),
        decreases v.len() - i,
    {
        let ghost s = v@.skip(i as int);
        assert(text::stands_at(v@, w@, i as int) == text::starts_with(s, p@)) by {
            if i + w@.len() <= v@.len() {
                assert(v@.subrange(i as int, i + w@.len()) =~= s.take(w@.len() as int));
            }
        }
        if part_at(v, &w, i) {
            return i;
        }
        assert(s.drop_first() =~= v@.skip(i + 1));
        i = i + 1;
    }
    i
}

/// The title under which a note is listed: the one in its front matter, else
/// its file name without the extension.
pub open spec fn title_of(content: Seq<char>, file: Seq<char>) -> Seq<char> {
    match frontmatter_title(content) {
        Some(t) => t,
        None => stem_of(file),
    }
}

/// The title under which a note is listed.
pub fn note_title(content: &str, file: &str) -> (r: String)
    ensures
        r@ == title_of(content@, file@),
{
    match extract_frontmatter_title(content) {
        Some(t) => t,
        None => title_from_stem(file),
    }
}

// ---------- attachments ----------

/// The extension of an attachment as it is used: without white space and
/// leading dots, in lower case, `bin` where nothing is left.
pub open spec fn asset_ext(ext: Seq<char>) -> Seq<char> {
    let e = text::ascii_lowered(text::trim_start_char(text::trimmed(ext), '.'));
    if e.len() == 0 {
        "bin"@
    } else {
        e
    }
}

/// Whether a character may stand in the extension of an attachment.
pub open spec fn is_ext_char(c: char) -> bool {
    'a' <= c <= 'z' || 'A' <= c <= 'Z' || '0' <= c <= '9' || c == '.' || c == '+' || c == '-'
}

/// What `save_asset` comes to for content with the hash `hash`.
pub open spec fn asset_path_of(hash: Seq<char>, ext: Seq<char>) -> Result<Seq<char>, FsErrorView> {
    let e = asset_ext(ext);
    if forall|i: int| 0 <= i < e.len() ==> is_ext_char(#[trigger] e[i]) {
        Ok("assets/"@ + hash.take(16) + "."@ + e)
    } else {
        Err(fs_error(FsErrorKind::InvalidInput, "非法附件扩展名: "@ + e))
    }
}

/// The path of an attachment with the hash `hash`.
pub fn asset_path(hash: &str, ext: &str) -> (r: Result<String, FsError>)
    requires
        hash@.len() >= 16,
    ensures
        outcome(r) == asset_path_of(hash@, ext@),
{
    let a = trim(ext);
    let b = strip_start_char(a.as_str(), '.');
    let c = to_ascii_lower(b.as_str());
    let e: String = if c.as_str().is_empty() {
        "bin".to_owned()
    } else {
        c
    };
    let v = to_chars(e.as_str());
    let mut i: usize = 0;
    while i < v.len()
        invariant
            i <= v.len(),
            v@ == e@,
            e@ == asset_ext(ext@),
            forall|j: int| 0 <= j < i ==> is_ext_char(#[trigger] e@[j]),
        decreases v.len() - i,
    {
        let x = v[i];
        if !(('a' <= x && x <= 'z') || ('A' <= x && x <= 'Z') || ('0' <= x && x <= '9') || x == '.' || x
            == '+' || x == '-') {
            assert(!is_ext_char(e@[i as int]));
            let m = concat("非法附件扩展名: ", e.as_str());
            return Err(FsError::new(FsErrorKind::InvalidInput, m.as_str()));
        }
        i = i + 1;
    }
    let h = to_chars(hash);
    let head = from_range(&h, 0, 16);
    assert(head@ =~= hash@.take(16));
    Ok(concat4("assets/", head.as_str(), ".", e.as_str()))
}

/// Where an attachment is stored: under the first 16 characters of its hash,
/// so that equal content has one path. An extension with anything but letters,
/// digits, dots, plus and minus signs is refused, and so is a path that a link
/// leads out of the vault.
pub fn save_asset(vault: &str, bytes: &[u8], ext: &str, facts: &PathFacts) -> (r: Result<
    String,
    FsError,
>)
    ensures
        match asset_path_of(hash_text(bytes@), ext@) {
            Err(e) => r is Err && r->Err_0@ == e,
            Ok(rel) => match resolved(vault@, rel, facts.nearest, facts.canon_vault@) {
                Err(e) => r is Err && r->Err_0@ == e,
                Ok(_) => r is Ok && r->Ok_0@ == rel,
            },
        },
{
    let hash = content_hash(bytes);
    match asset_path(hash.as_str(), ext) {
        Err(e) => Err(e),
        Ok(rel) => match resolve_in_vault(
            vault,
            rel.as_str(),
            &facts.nearest,
            facts.canon_vault.as_str(),
        ) {
            Err(e) => Err(e),
            Ok(_) => Ok(rel),
        },
    }
}

/// An attachment path stays in the directory of attachments: behind its first
/// slash there is none.
pub proof fn law_asset_path_is_flat(hash: Seq<char>, ext: Seq<char>, i: int)
    requires
        hash.len() >= 16,
        forall|j: int| 0 <= j < 16 ==> hash[j] != '/',
        asset_path_of(hash, ext) is Ok,
        "assets/"@.len() <= i < asset_path_of(hash, ext)->Ok_0.len(),
    ensures
        asset_path_of(hash, ext)->Ok_0[i] != '/',
{
    reveal_strlit("assets/");
    reveal_strlit(".");
    let e = asset_ext(ext);
    let p = asset_path_of(hash, ext)->Ok_0;
    if i >= 24 {
        assert(p[i] == e[i - 24]);
        assert(is_ext_char(e[i - 24]));
    }
}

// ---------- writing ----------

/// The path of the temporary file that a write of `abs` goes through first.
pub open spec fn tmp_path_of(abs: Seq<char>, pid: nat, seq: nat) -> Seq<char> {
    abs + "."@ + text::decimal(pid) + "."@ + text::decimal(seq) + ".lanmark-tmp"@
}

/// The path of the temporary file that a write of `abs` goes through first:
/// beside it, under a name that no other write has.
pub fn tmp_path_for(abs: &str, pid: u32, seq: u64) -> (r: String)
    ensures
        r@ == tmp_path_of(abs@, pid as nat, seq as nat),
{
    let p = decimal_u64(pid as u64);
    let s = decimal_u64(seq);
    let mut out: String = concat4(abs, ".", p.as_str(), ".");
    out.append(s.as_str());
    out.append(".lanmark-tmp");
    out
}

/// Two writes of one process never share a temporary file.
pub proof fn law_tmp_paths_differ(abs: Seq<char>, pid: nat, a: nat, b: nat)
    requires
        a != b,
    ensures
        tmp_path_of(abs, pid, a) != tmp_path_of(abs, pid, b),
{
    let lead = abs + "."@ + text::decimal(pid) + "."@;
    let tail = ".lanmark-tmp"@;
    let x = text::decimal(a);
    let y = text::decimal(b);
    text::lemma_number_of_decimal(a);
    text::lemma_number_of_decimal(b);
    if lead + x + tail == lead + y + tail {
        assert((lead + x + tail).len() == (lead + y + tail).len());
        assert(x =~= (lead + x + tail).subrange(lead.len() as int, (lead.len() + x.len()) as int));
        assert(y =~= (lead + y + tail).subrange(lead.len() as int, (lead.len() + x.len()) as int));
    }
}

/// The modification time to give to a file; what is not positive stands for a
/// time that could not be read, and is left alone.
pub fn mtime_to_set(ms: i64) -> (r: Option<u64>)
    ensures
        r == if ms <= 0 {
            None
        } else {
            Some(ms as u64)
        },
{
    if ms <= 0 {
        None
    } else {
        Some(ms as u64)
    }
}

/// A row of the index.
#[derive(Debug)]
pub struct IndexRow {
    pub path: String,
    pub title: String,
    pub body: String,
    pub mtime_ms: i64,
    pub hash: String,
}

pub struct IndexRowView {
    pub path: Seq<char>,
    pub title: Seq<char>,
    pub body: Seq<char>,
    pub mtime_ms: i64,
    pub hash: Seq<char>,
}

impl View for IndexRow {
    type V = IndexRowView;

    open spec fn view(&self) -> IndexRowView {
        IndexRowView {
            path: self.path@,
            title: self.title@,
            body: self.body@,
            mtime_ms: self.mtime_ms,
            hash: self.hash@,
        }
    }
}

/// The row of a note: the hash is that of the bytes on disk, the text that of
/// the body.
pub open spec fn row_of(rel: Seq<char>, body: Seq<char>, bytes: Seq<u8>, mtime_ms: i64) -> IndexRowView {
    IndexRowView {
        path: rel,
        title: title_of(body, rel),
        body,
        mtime_ms,
        hash: hash_text(bytes),
    }
}

/// The row of a note with the text `body`, which is stored as `bytes`.
pub fn index_row(rel: &str, body: &str, bytes: &[u8], mtime_ms: i64) -> (r: IndexRow)
    ensures
        r@ == row_of(rel@, body@, bytes@, mtime_ms),
{
    IndexRow {
        path: rel.to_owned(),
        title: note_title(body, rel),
        body: body.to_owned(),
        mtime_ms,
        hash: content_hash(bytes),
    }
}

/// The row of a note that is written as text.
pub fn write_note(rel: &str, content: &str, mtime_ms: i64) -> (r: IndexRow)
    ensures
        r@ == row_of(rel@, content@, vstd::utf8::encode_utf8(content@), mtime_ms),
{
    index_row(rel, content, content.as_bytes(), mtime_ms)
}

/// The row of a note that is written as bytes; what is no UTF-8 is replaced
/// in the text of the row, and kept on disk.
pub fn write_note_bytes(rel: &str, bytes: &[u8], mtime_ms: i64) -> (r: IndexRow)
    ensures
        r@ == row_of(rel@, text::lossy_text(bytes@), bytes@, mtime_ms),
{
    let body = from_utf8_lossy(bytes);
    index_row(rel, body.as_str(), bytes, mtime_ms)
}

// ---------- files of other devices ----------

/// What is written for a file that came from another device: its bytes, the
/// modification time that the file is given, for a note its row in the index,
/// and whether the path is back, so that its tombstone is dropped.
#[derive(Debug)]
pub struct FileWrite {
    pub path: String,
    pub bytes: Vec<u8>,
    pub time_ms: Option<u64>,
    pub row: Option<IndexRow>,
    pub revives: bool,
}

pub struct FileWriteView {
    pub path: Seq<char>,
    pub bytes: Seq<u8>,
    pub time_ms: Option<u64>,
    pub row: Option<IndexRowView>,
    pub revives: bool,
}

impl View for FileWrite {
    type V = FileWriteView;

    open spec fn view(&self) -> FileWriteView {
        FileWriteView {
            path: self.path@,
            bytes: self.bytes@,
            time_ms: self.time_ms,
            row: match self.row {
                Some(r) => Some(r@),
                None => None,
            },
            revives: self.revives,
        }
    }
}

/// What is written for a file: it keeps the time of the other device where that
/// is known, and a note is indexed as of now.
pub open spec fn file_write_of(
    path: Seq<char>,
    kind: Seq<char>,
    bytes: Seq<u8>,
    mtime_ms: i64,
    now_ms: i64,
    revives: bool,
) -> FileWriteView {
    FileWriteView {
        path,
        bytes,
        time_ms: if mtime_ms <= 0 {
            None
        } else {
            Some(mtime_ms as u64)
        },
        row: if kind == "note"@ {
            Some(row_of(path, text::lossy_text(bytes), bytes, now_ms))
        } else {
            None
        },
        revives,
    }
}

/// What is written for a file that came from another device.
pub fn file_write(path: &str, kind: &str, bytes: &Vec<u8>, mtime_ms: i64, now_ms: i64, revives: bool) -> (r: FileWrite)
    ensures
        r@ == file_write_of(path@, kind@, bytes@, mtime_ms, now_ms, revives),
{
    let row: Option<IndexRow> = if text::same(kind, "note") {
        Some(write_note_bytes(path, bytes.as_slice(), now_ms))
    } else {
        None
    };
    let copy = bytes.clone();
    assert(copy@ =~= bytes@);
    FileWrite { path: path.to_owned(), bytes: copy, time_ms: mtime_to_set(mtime_ms), row, revives }
}

// ---------- what is written ----------

/// An attachment lies in the directory of attachments under the start of its
/// hash and its extension, in lower case; one without extension is `bin`. An
/// extension with anything but letters, digits, dots, plus signs and hyphens is
/// refused.
pub proof fn law_attachments_are_named_by_their_hash(hash: Seq<char>, ext: Seq<char>)
    requires
        hash.len() >= 16,
        ext.len() > 0 ==> !text::is_white(ext[0]) && !text::is_white(ext.last()) && ext[0] != '.',
    ensures
        ext.len() == 0 ==> asset_path_of(hash, ext) == Ok::<Seq<char>, FsErrorView>(
            "assets/"@ + hash.take(16) + ".bin"@,
        ),
        asset_path_of(hash, seq!['.'] + ext) == asset_path_of(hash, ext),
        ext.len() > 0 ==> match asset_path_of(hash, ext) {
            Ok(p) => {
                &&& p.len() == 24 + ext.len()
                &&& p.take(7) == "assets/"@
                &&& p.subrange(7, 23) == hash.take(16)
                &&& p[23] == '.'
                &&& forall|i: int| 0 <= i < ext.len() ==> #[trigger] p[24 + i] == text::ascii_lower(ext[i])
            },
            Err(e) => e.kind == FsErrorKind::InvalidInput && exists|i: int|
                {
                    &&& 0 <= i < ext.len()
                    &&& !('a' <= #[trigger] ext[i] <= 'z')
                    &&& !('A' <= ext[i] <= 'Z')
                    &&& !('0' <= ext[i] <= '9')
                    &&& ext[i] != '.'
                    &&& ext[i] != '+'
                    &&& ext[i] != '-'
                },
        },
        asset_path_of(hash, ext) is Ok ==> forall|i: int|
            0 <= i < ext.len() ==> 'a' <= #[trigger] ext[i] <= 'z' || 'A' <= ext[i] <= 'Z' || '0' <= ext[i] <= '9'
                || ext[i] == '.' || ext[i] == '+' || ext[i] == '-',
{
    reveal_strlit("assets/");
    reveal_strlit(".bin");
    reveal_strlit("bin");
    reveal_strlit(".");
    assert("."@ =~= seq!['.']);
    assert(".bin"@ =~= "."@ + "bin"@);
    assert("assets/"@.len() == 7);
    let dotted = seq!['.'] + ext;
    assert(text::trimmed(ext) == ext);
    assert(dotted[0] == '.');
    if ext.len() > 0 {
        assert(dotted.last() == ext.last());
    }
    assert(text::trimmed(dotted) == dotted);
    assert(dotted.drop_first() =~= ext);
    assert(text::trim_start_char(ext, '.') == ext);
    assert(text::trim_start_char(dotted, '.') == ext);
    if ext.len() == 0 {
        assert(text::ascii_lowered(ext).len() == 0);
        let e = "bin"@;
        assert(asset_ext(ext) == e);
        assert(e[0] == 'b' && e[1] == 'i' && e[2] == 'n');
        assert forall|i: int| 0 <= i < e.len() implies is_ext_char(#[trigger] e[i]) by {}
        assert("assets/"@ + hash.take(16) + "."@ + e =~= "assets/"@ + hash.take(16) + ".bin"@);
    } else {
        let e = text::ascii_lowered(ext);
        assert(asset_ext(ext) == e);
        assert forall|i: int| 0 <= i < ext.len() implies is_ext_char(#[trigger] ext[i]) == is_ext_char(e[i]) by {
            text::law_ascii_case(ext[i]);
            assert(e[i] == text::ascii_lower(ext[i]));
        }
        match asset_path_of(hash, ext) {
            Ok(p) => {
                assert(p =~= "assets/"@ + hash.take(16) + "."@ + e);
                assert(p.take(7) =~= "assets/"@);
                assert(p.subrange(7, 23) =~= hash.take(16));
                assert forall|i: int| 0 <= i < ext.len() implies is_ext_char(#[trigger] ext[i]) by {
                    assert(is_ext_char(e[i]));
                }
            },
            Err(x) => {
                let i = choose|i: int| 0 <= i < e.len() && !is_ext_char(#[trigger] e[i]);
                assert(!is_ext_char(ext[i]));
            },
        }
    }
}

/// What is indexed of a note is what was written: its path, its text, the hash
/// of its bytes and its time.
pub proof fn law_rows_hold_what_was_written(
    rel: &str,
    content: &str,
    mtime_ms: i64,
    row: IndexRow,
    bytes: &[u8],
    raw: IndexRow,
)
    requires
        call_ensures(write_note, (rel, content, mtime_ms), row),
        call_ensures(write_note_bytes, (rel, bytes, mtime_ms), raw),
    ensures
        row@.path == rel@,
        row@.body == content@,
        row@.mtime_ms == mtime_ms,
        row@.hash == text::hex(digest::sha256(vstd::utf8::encode_utf8(content@))),
        raw@.path == rel@,
        raw@.body == text::lossy_text(bytes@),
        raw@.mtime_ms == mtime_ms,
        raw@.hash == text::hex(digest::sha256(bytes@)),
        frontmatter_title(content@) matches Some(t) ==> row@.title == t,
        frontmatter_title(text::lossy_text(bytes@)) matches Some(t) ==> raw@.title == t,
{
}

/// A file of another device is written with its bytes and under its path; it
/// keeps the time of that device where there is one. Only a note is indexed, as
/// of now, with the hash of its bytes.
pub proof fn law_files_keep_bytes_and_time(
    path: &str,
    kind: &str,
    bytes: &Vec<u8>,
    mtime_ms: i64,
    now_ms: i64,
    revives: bool,
    w: FileWrite,
)
    requires
        call_ensures(file_write, (path, kind, bytes, mtime_ms, now_ms, revives), w),
    ensures
        w@.path == path@,
        w@.bytes == bytes@,
        w@.revives == revives,
        mtime_ms > 0 ==> w@.time_ms == Some(mtime_ms as u64),
        mtime_ms <= 0 ==> w@.time_ms is None,
        kind@ != "note"@ ==> w@.row is None,
        kind@ == "note"@ ==> {
            &&& w@.row is Some
            &&& w@.row->0.path == path@
            &&& w@.row->0.body == text::lossy_text(bytes@)
            &&& w@.row->0.hash == text::hex(digest::sha256(bytes@))
            &&& w@.row->0.mtime_ms == now_ms
        },
{
}

/// The names that Windows keeps for devices are those of the console, printer,
/// auxiliary, null, and the nine serial and parallel ports; in any case and with
/// any extension. A new entry of such a name gets `n-` before it.
pub proof fn law_device_names_are_not_given(base: Seq<char>, ext: Seq<char>)
    requires
        forall|i: int| 0 <= i < base.len() ==> #[trigger] base[i] != '.',
    ensures
        is_reserved(base) <==> is_reserved(base + seq!['.'] + ext),
        is_reserved(base) <==> is_device_name(text::ascii_uppered(base)),
        is_reserved(base) ==> unreserved(base) == "n-"@ + base,
        !is_reserved(base) ==> unreserved(base) == base,
        base.len() != 3 && base.len() != 4 ==> !is_reserved(base),
{
    let full = base + seq!['.'] + ext;
    text::lemma_first_index(base, '.');
    text::lemma_first_index(full, '.');
    assert(full[base.len() as int] == '.');
    if text::first_index(full, '.') < base.len() {
        assert(full[text::first_index(full, '.')] == base[text::first_index(full, '.')]);
    }
    assert(full.take(base.len() as int) =~= base);
    assert(base.take(base.len() as int) =~= base);
    reveal_strlit("CON");
    reveal_strlit("PRN");
    reveal_strlit("AUX");
    reveal_strlit("NUL");
    reveal_strlit("COM1");
    reveal_strlit("COM2");
    reveal_strlit("COM3");
    reveal_strlit("COM4");
    reveal_strlit("COM5");
    reveal_strlit("COM6");
    reveal_strlit("COM7");
    reveal_strlit("COM8");
    reveal_strlit("COM9");
    reveal_strlit("LPT1");
    reveal_strlit("LPT2");
    reveal_strlit("LPT3");
    reveal_strlit("LPT4");
    reveal_strlit("LPT5");
    reveal_strlit("LPT6");
    reveal_strlit("LPT7");
    reveal_strlit("LPT8");
    reveal_strlit("LPT9");
    assert(text::ascii_uppered(base).len() == base.len());
}

/// Each serial and parallel port from 1 to 9 is such a name, and so are the four
/// others.
pub proof fn law_ports_are_device_names(d: char)
    ensures
        is_device_name(seq!['C', 'O', 'M', d]) <==> '1' <= d <= '9',
        is_device_name(seq!['L', 'P', 'T', d]) <==> '1' <= d <= '9',
        is_device_name(seq!['C', 'O', 'N']),
        is_device_name(seq!['P', 'R', 'N']),
        is_device_name(seq!['A', 'U', 'X']),
        is_device_name(seq!['N', 'U', 'L']),
{
    reveal_strlit("CON");
    reveal_strlit("PRN");
    reveal_strlit("AUX");
    reveal_strlit("NUL");
    reveal_strlit("COM1");
    reveal_strlit("COM2");
    reveal_strlit("COM3");
    reveal_strlit("COM4");
    reveal_strlit("COM5");
    reveal_strlit("COM6");
    reveal_strlit("COM7");
    reveal_strlit("COM8");
    reveal_strlit("COM9");
    reveal_strlit("LPT1");
    reveal_strlit("LPT2");
    reveal_strlit("LPT3");
    reveal_strlit("LPT4");
    reveal_strlit("LPT5");
    reveal_strlit("LPT6");
    reveal_strlit("LPT7");
    reveal_strlit("LPT8");
    reveal_strlit("LPT9");
    let com = seq!['C', 'O', 'M', d];
    let lpt = seq!['L', 'P', 'T', d];
    assert("CON"@ =~= seq!['C', 'O', 'N']);
    assert("PRN"@ =~= seq!['P', 'R', 'N']);
    assert("AUX"@ =~= seq!['A', 'U', 'X']);
    assert("NUL"@ =~= seq!['N', 'U', 'L']);
    assert(com[3] == d && lpt[3] == d && com[0] == 'C' && lpt[0] == 'L');
    assert(com.len() == 4 && lpt.len() == 4);
    if d == '1' {
        assert(com =~= "COM1"@ && lpt =~= "LPT1"@);
    } else if d == '2' {
        assert(com =~= "COM2"@ && lpt =~= "LPT2"@);
    } else if d == '3' {
        assert(com =~= "COM3"@ && lpt =~= "LPT3"@);
    } else if d == '4' {
        assert(com =~= "COM4"@ && lpt =~= "LPT4"@);
    } else if d == '5' {
        assert(com =~= "COM5"@ && lpt =~= "LPT5"@);
    } else if d == '6' {
        assert(com =~= "COM6"@ && lpt =~= "LPT6"@);
    } else if d == '7' {
        assert(com =~= "COM7"@ && lpt =~= "LPT7"@);
    } else if d == '8' {
        assert(com =~= "COM8"@ && lpt =~= "LPT8"@);
    } else if d == '9' {
        assert(com =~= "COM9"@ && lpt =~= "LPT9"@);
    }
}

// ---------- paths that are not written plainly ----------

/// Segments `.` and white space around a path do not count: the entry is the same,
/// and so are its directory and its name.
pub proof fn law_dots_around_a_path_do_not_count(p: Seq<char>)
    requires
        p.len() > 0,
        !text::is_white(p[0]),
        !text::is_white(p.last()),
    ensures
        core_path(seq!['.', '/'] + p) == core_path(p),
        core_path(p + seq!['/', '.']) == core_path(p),
        parent_rel(seq!['.', '/'] + p) == parent_rel(p),
        entry_name(seq!['.', '/'] + p) == entry_name(p),
        parent_rel(p + seq!['/', '.']) == parent_rel(p),
        entry_name(p + seq!['/', '.']) == entry_name(p),
        is_vault_itself(seq!['.']),
{
    reveal_strlit(".");
    assert("."@ =~= seq!['.']);
    let a = seq!['.', '/'] + p;
    let b = p + seq!['/', '.'];
    assert(a[0] == '.' && a.last() == p.last());
    assert(b[0] == p[0] && b.last() == '.');
    assert(text::trimmed(a) == a);
    assert(text::trimmed(b) == b);
    assert(text::trimmed(p) == p);
    assert(b.take(b.len() - 2) =~= p);
    assert(strip_trail_dots(b) == strip_trail_dots(p));
    lemma_lead_and_trail(p);
    assert(text::trimmed(seq!['.']) == seq!['.']);
}

proof fn lemma_lead_and_trail(p: Seq<char>)
    requires
        p.len() > 0,
    ensures
        strip_lead_dots(strip_trail_dots(seq!['.', '/'] + p)) == strip_lead_dots(strip_trail_dots(p)),
    decreases p.len(),
{
    let a = seq!['.', '/'] + p;
    if p.len() >= 2 && p[p.len() - 1] == '.' && p[p.len() - 2] == '/' {
        let q = p.take(p.len() - 2);
        assert(a.take(a.len() - 2) =~= seq!['.', '/'] + q);
        assert(strip_trail_dots(a) == strip_trail_dots(seq!['.', '/'] + q));
        if q.len() > 0 {
            lemma_lead_and_trail(q);
        } else {
            let r = seq!['.', '/'] + q;
            assert(r =~= seq!['.', '/']);
            assert(strip_trail_dots(r) == r);
            assert(r.skip(2) =~= q);
            assert(strip_lead_dots(r) == strip_lead_dots(q));
            assert(strip_trail_dots(q) == q);
        }
    } else if p.len() == 1 && p[0] == '.' {
        assert(a =~= seq!['.', '/', '.']);
        assert(a.take(1) =~= seq!['.']);
        assert(strip_trail_dots(a) == strip_trail_dots(a.take(1)));
        assert(p =~= seq!['.']);
    } else {
        if p.len() == 1 {
            assert(a.last() == p[0]);
        } else {
            assert(a[a.len() - 2] == p[p.len() - 2]);
            assert(a.last() == p.last());
        }
        assert(strip_trail_dots(a) == a);
        assert(strip_trail_dots(p) == p);
        assert(a.skip(2) =~= p);
    }
}

/// White space around a path does not count for whether it is in the vault, and
/// the vault itself is the directory of the empty path.
pub proof fn law_white_space_around_a_path_does_not_count(vault: Seq<char>, rel: Seq<char>)
    ensures
        safe_joined(vault, rel) == safe_joined(vault, text::trimmed(rel)),
        text::trimmed(rel).len() == 0 || text::trimmed(rel) == seq!['.'] ==> dir_joined(vault, rel) == Ok::<
            Seq<char>,
            FsErrorView,
        >(vault) && safe_joined(vault, rel) is Err,
        text::trimmed(rel).len() > 0 && text::trimmed(rel) != seq!['.'] ==> dir_joined(vault, rel) == safe_joined(
            vault,
            rel,
        ),
{
    reveal_strlit(".");
    assert("."@ =~= seq!['.']);
    text::lemma_trimmed_idempotent(rel);
}

/// A name without extension is numbered at its end. A new name that has an
/// extension is taken as it is; one without keeps the old one, if there was one:
/// a name that ends in a dot, or has its only dot first, has none.
pub proof fn law_names_without_extension(new_name: CleanName, n: Seq<char>, stem: Seq<char>, i: nat)
    requires
        is_plain_name(n),
        forall|k: int| 0 <= k < n.len() ==> #[trigger] n[k] != '.',
    ensures
        i >= 2 ==> numbered_name(n, i) == n + seq!['-'] + text::decimal(i),
        numbered_name(n, 1) == n,
        (exists|k: int| 0 < k < new_name.raw@.len() && #[trigger] new_name.raw@[k] == '.') ==> renamed_file(
            new_name,
            stem,
        ) == new_name.with_ext@,
        !(exists|k: int| 0 < k < new_name.raw@.len() && #[trigger] new_name.raw@[k] == '.') ==> {
            &&& renamed_file(new_name, n) == new_name.plain@
            &&& renamed_file(new_name, seq!['.'] + n) == new_name.plain@
            &&& stem.len() > 0 ==> renamed_file(new_name, stem + seq!['.']) == new_name.plain@
            &&& stem.len() > 0 ==> renamed_file(new_name, stem + seq!['.'] + n) == new_name.plain@ + seq!['.'] + n
        },
{
    reveal_strlit("-");
    reveal_strlit(".");
    assert("-"@ =~= seq!['-']);
    assert("."@ =~= seq!['.']);
    let none = Seq::<char>::empty();
    text::law_path_ends_in_its_name(none, n);
    text::law_extension_follows_the_last_dot(n, n);
    text::law_extension_follows_the_last_dot(stem, none);
    text::law_extension_follows_the_last_dot(stem, n);
    assert(stem + seq!['.'] + none =~= stem + seq!['.']);
    assert(n.take(n.len() as int) =~= n);
    assert(n.skip(n.len() as int) =~= none);
    assert(n + seq!['-'] + text::decimal(i) + none =~= n + seq!['-'] + text::decimal(i));
    text::lemma_last_index(new_name.raw@, '.');
    let last = text::last_index(new_name.raw@, '.');
    if last > 0 {
        assert(new_name.raw@[last] == '.');
    }
    let s = stem + seq!['.'] + n;
    assert(s.skip(stem.len() as int + 1) =~= n);
}

} // verus!
