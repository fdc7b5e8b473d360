//! What a user can do: the operations behind the commands of the application.
use vstd::prelude::*;

use crate::db;
use crate::db::{list_favorites, list_recents, record_recent, search, SearchHit};
use crate::digest;
use crate::fs_ops;
use crate::fs_ops::{
    move_entry, rename_entry, save_asset, title_from_stem, write_note, CleanName, FsError, IndexRow, IndexRowView, Node,
    NodeView, PathFacts,
};
use crate::strmap::StrMap;
use crate::sync;
use crate::sync::{
    b64_decode, clear_tombstone, clear_tombstones_for_entry, record_tombstones_for_entry, Tombstone, TombstoneView,
};
use crate::text;
use crate::text::{concat, from_range, has_prefix, has_suffix, rfind_char, same, split_char, to_chars};
use crate::tree;
use crate::tree::delete_entry;
use crate::vault::{AppConfig, AppConfigView};

verus! {

// ---------- the vault ----------

/// What the application shows of its vault.
#[derive(Debug, PartialEq, Eq)]
pub struct VaultStatus {
    pub configured: bool,
    pub open: bool,
    pub path: Option<String>,
    /// Whether the device syncs by itself.
    pub sync_auto: bool,
}

/// What the application shows of its vault.
pub fn vault_status(cfg: &AppConfig, open: bool) -> (r: VaultStatus)
    ensures
        r.configured == (cfg@.vault_path is Some),
        r.open == open,
        text::opt_view(r.path) == cfg@.vault_path,
        r.sync_auto == cfg@.sync_auto,
{
    let path: Option<String> = match &cfg.vault_path {
        Some(p) => Some(p.clone()),
        None => None,
    };
    VaultStatus { configured: path.is_some(), open, path, sync_auto: cfg.sync_auto }
}

/// Sets where the vault lies; the rest of the configuration stays as it is.
pub fn vault_set_path(cfg: &mut AppConfig, path: &str)
    ensures
        final(cfg)@ == (AppConfigView { vault_path: Some(path@), ..old(cfg)@ }),
{
    cfg.vault_path = Some(path.to_owned());
}

/// Sets whether the device syncs by itself; the rest of the configuration stays
/// as it is.
pub fn vault_set_sync_auto(cfg: &mut AppConfig, enabled: bool) -> (r: bool)
    ensures
        final(cfg)@ == (AppConfigView { sync_auto: enabled, ..old(cfg)@ }),
        r == enabled,
{
    cfg.sync_auto = enabled;
    enabled
}

/// Whether one of the names is that of a note.
pub open spec fn has_notes(names: Seq<Seq<char>>) -> bool {
    exists|i: int| 0 <= i < names.len() && text::ends_with(#[trigger] names[i], ".md"@)
}

fn any_note(names: &Vec<String>) -> (r: bool)
    ensures
        r == has_notes(text::views(names@)),
{
    let ghost all = text::views(names@);
    let mut i: usize = 0;
    while i < names.len()
        invariant
            i <= names.len(),
            all == text::views(names@),
            forall|j: int| 0 <= j < i ==> !text::ends_with(#[trigger] all[j], ".md"@),
        decreases names.len() - i,
    {
        assert(all[i as int] == names@[i as int]@);
        if has_suffix(names[i].as_str(), ".md") {
            return true;
        }
        i = i + 1;
    }
    false
}

/// Why a directory cannot become the vault in a mode: a new vault must not hold
/// notes already. A directory that cannot be read counts as without notes.
pub open spec fn mode_fault(mode: Seq<char>, names: Option<Seq<Seq<char>>>) -> Option<Seq<char>> {
    if mode == "create"@ {
        if names is Some && has_notes(names->0) {
            Some("所选目录已包含 .md 笔记，请改用「打开」模式"@)
        } else {
            None
        }
    } else if mode == "open"@ {
        None
    } else {
        Some("未知模式: "@ + mode)
    }
}

/// The names in a directory that may not be readable, by their views.
pub open spec fn names_view(names: Option<Vec<String>>) -> Option<Seq<Seq<char>>> {
    match names {
        Some(n) => Some(text::views(n@)),
        None => None,
    }
}

/// Why a directory with the given names cannot become the vault in a mode.
pub fn check_mode(mode: &str, names: &Option<Vec<String>>) -> (r: Option<String>)
    ensures
        text::opt_view(r) == mode_fault(mode@, names_view(*names)),
{
    if same(mode, "create") {
        if let Some(n) = names {
            if any_note(n) {
                return Some("所选目录已包含 .md 笔记，请改用「打开」模式".to_owned());
            }
        }
        None
    } else if same(mode, "open") {
        None
    } else {
        Some(concat("未知模式: ", mode))
    }
}

/// Makes a directory the vault. `names` are those in the directory, and `open`
/// opens it, which is not done where the mode does not allow it.
pub fn pick_and_set_op<O: Fn() -> Result<(), String>>(mode: &str, names: &Option<Vec<String>>, open: O) -> (r: Result<
    (),
    String,
>)
    requires
        mode_fault(mode@, names_view(*names)) is None ==> call_requires(open, ()),
    ensures
        match mode_fault(mode@, names_view(*names)) {
            Some(why) => r is Err && r->Err_0@ == why,
            None => call_ensures(open, (), r),
        },
{
    match check_mode(mode, names) {
        Some(why) => Err(why),
        None => open(),
    }
}

/// Opens the vault at a path, where there is a directory.
pub fn vault_open_path_op<O: Fn() -> Result<(), String>>(path: &str, is_dir: bool, open: O) -> (r: Result<
    String,
    String,
>)
    requires
        is_dir ==> call_requires(open, ()),
    ensures
        !is_dir ==> r is Err && r->Err_0@ == "目录不存在: "@ + path@,
        is_dir ==> match r {
            Ok(p) => p@ == path@ && call_ensures(open, (), Ok(())),
            Err(e) => call_ensures(open, (), Err(e)),
        },
{
    if !is_dir {
        return Err(concat("目录不存在: ", path));
    }
    let done = open();
    assert(call_ensures(open, (), done));
    match done {
        Ok(u) => {
            assert(u == ());
            Ok(path.to_owned())
        },
        Err(e) => Err(e),
    }
}

/// Whether a directory may be made at a path: it is absolute and does not lead
/// upwards.
pub open spec fn is_plain_dir(path: Seq<char>) -> bool {
    text::starts_with(path, "/"@) && !text::split(path, '/').contains(".."@)
}

/// Makes the directory of a new vault; `create` makes it. A path that is not
/// absolute or leads upwards is refused, and nothing is made there.
pub fn vault_ensure_dir<C: Fn(&str) -> Result<(), String>>(path: &str, create: C) -> (r: Result<
    String,
    String,
>)
    requires
        is_plain_dir(path@) ==> call_requires(create, (path,)),
    ensures
        !is_plain_dir(path@) ==> r is Err && r->Err_0@ == "非法路径: "@ + path@,
        is_plain_dir(path@) ==> exists|done: Result<(), String>|
            {
                &&& #[trigger] call_ensures(create, (path,), done)
                &&& match done {
                    Ok(_) => r is Ok && r->Ok_0@ == path@,
                    Err(e) => r is Err && r->Err_0@ == "创建目录失败: "@ + e@,
                }
            },
{
    let segs = split_char(path, '/');
    if !has_prefix(path, "/") || text::list_has(&segs, "..") {
        return Err(concat("非法路径: ", path));
    }
    let done = create(path);
    assert(call_ensures(create, (path,), done));
    match done {
        Ok(_) => Ok(path.to_owned()),
        Err(e) => Err(concat("创建目录失败: ", e.as_str())),
    }
}

/// The vault that is open, or that none is.
pub fn open_vault(vault: Option<&str>) -> (r: Result<String, String>)
    ensures
        match vault {
            Some(v) => r is Ok && r->Ok_0@ == v@,
            None => r is Err && r->Err_0@ == "尚未打开 vault"@,
        },
{
    match vault {
        Some(v) => Ok(v.to_owned()),
        None => Err("尚未打开 vault".to_owned()),
    }
}

// ---------- notes ----------

/// The row of the index for a note that was just created.
pub open spec fn fresh_row(node: NodeView, now_ms: i64) -> IndexRowView {
    IndexRowView {
        path: node.path,
        title: match node.title {
            Some(t) => t,
            None => Seq::empty(),
        },
        body: Seq::empty(),
        mtime_ms: now_ms,
        hash: Seq::empty(),
    }
}

/// The row of the index for a note that was just created. A tombstone of its
/// path is dropped.
pub fn note_create_op(tombstones: &mut Vec<Tombstone>, node: &Node, now_ms: i64) -> (r: IndexRow)
    ensures
        r@ == fresh_row(node@, now_ms),
        text::views(final(tombstones)@) == sync::tombstones_without(
            text::views(old(tombstones)@),
            node@.path,
        ),
{
    clear_tombstone(tombstones, node.path.as_str());
    let title: String = match &node.title {
        Some(t) => t.clone(),
        None => String::new(),
    };
    let r = IndexRow {
        path: node.path.clone(),
        title,
        body: String::new(),
        mtime_ms: now_ms,
        hash: String::new(),
    };
    assert(r@.title =~= fresh_row(node@, now_ms).title);
    assert(r@.body =~= Seq::<char>::empty());
    assert(r@.hash =~= Seq::<char>::empty());
    r
}

/// Deletes an entry at `now_ms`: its files get tombstones, and the entry goes
/// into the trash; the place there is returned. Where the entry cannot be
/// resolved, `files` is empty.
pub fn entry_delete_op(
    tombstones: &mut Vec<Tombstone>,
    files: &Vec<(String, Option<Vec<u8>>)>,
    vault: &str,
    rel_path: &str,
    facts: &PathFacts,
    names: &Vec<String>,
    now_ms: i64,
) -> (r: Result<String, FsError>)
    requires
        names@.len() + 2 <= u64::MAX,
    ensures
        text::views(final(tombstones)@) == sync::recorded_all(
            text::views(old(tombstones)@),
            sync::file_views(files@),
            now_ms,
            files@.len() as int,
        ),
        match fs_ops::resolved(vault@, rel_path@, facts.nearest, facts.canon_vault@) {
            Err(e) => r is Err && r->Err_0@ == e,
            Ok(_) => if fs_ops::is_vault_itself(rel_path@) {
                r is Err && r->Err_0@ == fs_ops::into_itself()
            } else {
                let base = text::decimal_int(now_ms as int) + "-"@ + fs_ops::entry_name(rel_path@);
                r is Ok && exists|i: nat| #[trigger]
                    tree::is_first_trash_name(text::views(names@), base, i) && r->Ok_0@
                        == ".lanmark/trash"@ + "/"@ + tree::trash_name(base, i)
            },
        },
{
    record_tombstones_for_entry(tombstones, files, now_ms);
    delete_entry(vault, rel_path, facts, names, now_ms)
}

/// Whether `done` is what moving an entry to `new` came to, with the tombstones
/// `recorded` before it.
pub open spec fn carried<M: Fn(&String, &Vec<Tombstone>) -> Result<Vec<String>, String>>(
    relocate: M,
    new: Seq<char>,
    recorded: Seq<TombstoneView>,
    done: Result<Vec<String>, String>,
) -> bool {
    exists|p: String, l: Vec<Tombstone>|
        {
            &&& #[trigger] call_ensures(relocate, (&p, &l), done)
            &&& p@ == new
            &&& text::views(l@) == recorded
        }
}

/// Whether an entry that gets the path `place` may be moved there: where that is
/// another path, and with its files recorded as gone.
pub open spec fn relocate_leave<M: Fn(&String, &Vec<Tombstone>) -> Result<Vec<String>, String>>(
    relocate: M,
    place: Result<String, FsError>,
    rel_path: Seq<char>,
    recorded: Seq<TombstoneView>,
) -> bool {
    forall|p: &String, l: &Vec<Tombstone>|
        place is Ok && place->Ok_0@ != rel_path && p@ == place->Ok_0@ && text::views(l@) == recorded
            ==> #[trigger] call_requires(relocate, (p, l))
}

/// Whether `r` and the tombstones `after` are what comes of moving an entry to
/// `place`. Its files are recorded as gone before it moves; once it has moved,
/// those at its new place have no tombstones.
pub open spec fn relocated<M: Fn(&String, &Vec<Tombstone>) -> Result<Vec<String>, String>>(
    relocate: M,
    place: Result<String, FsError>,
    rel_path: Seq<char>,
    before: Seq<TombstoneView>,
    files: Seq<(Seq<char>, Option<Seq<u8>>)>,
    now_ms: i64,
    after: Seq<TombstoneView>,
    r: Result<String, String>,
) -> bool {
    let recorded = sync::recorded_all(before, files, now_ms, files.len() as int);
    match place {
        Err(e) => r is Err && r->Err_0@ == e@.message && after == before,
        Ok(new) => if new@ == rel_path {
            r is Ok && r->Ok_0@ == rel_path && after == before
        } else {
            exists|done: Result<Vec<String>, String>|
                {
                    &&& #[trigger] carried(relocate, new@, recorded, done)
                    &&& match done {
                        Err(e) => r is Err && r->Err_0@ == e@ && after == recorded,
                        Ok(paths) => {
                            &&& r is Ok
                            &&& r->Ok_0@ == new@
                            &&& after == sync::moved_all(before, files, text::views(paths@), now_ms)
                        },
                    }
                }
        },
    }
}

/// Moves an entry to the path that was found for it.
fn relocate_entry<M: Fn(&String, &Vec<Tombstone>) -> Result<Vec<String>, String>>(
    tombstones: &mut Vec<Tombstone>,
    files: &Vec<(String, Option<Vec<u8>>)>,
    place: Result<String, FsError>,
    rel_path: &str,
    now_ms: i64,
    relocate: M,
) -> (r: Result<String, String>)
    requires
        relocate_leave(
            relocate,
            place,
            rel_path@,
            sync::recorded_all(
                text::views(old(tombstones)@),
                sync::file_views(files@),
                now_ms,
                files@.len() as int,
            ),
        ),
    ensures
        relocated(
            relocate,
            place,
            rel_path@,
            text::views(old(tombstones)@),
            sync::file_views(files@),
            now_ms,
            text::views(final(tombstones)@),
            r,
        ),
{
    match place {
        Err(e) => Err(e.message),
        Ok(new) => {
            if same(new.as_str(), rel_path) {
                return Ok(new);
            }
            record_tombstones_for_entry(tombstones, files, now_ms);
            let ghost recorded = text::views(tombstones@);
            let done = relocate(&new, tombstones);
            assert(carried(relocate, new@, recorded, done));
            match done {
                Err(e) => Err(e),
                Ok(paths) => {
                    clear_tombstones_for_entry(tombstones, &paths);
                    Ok(new)
                },
            }
        },
    }
}

/// Renames an entry in its directory at `now_ms`, and returns its new path.
/// `relocate` saves the tombstones that it is handed, moves the entry with its
/// index, and gives the files at the new place. `files` are those of the entry.
pub fn entry_rename_op<
    F: Fn(&String) -> bool,
    M: Fn(&String, &Vec<Tombstone>) -> Result<Vec<String>, String>,
>(
    tombstones: &mut Vec<Tombstone>,
    files: &Vec<(String, Option<Vec<u8>>)>,
    vault: &str,
    rel_path: &str,
    new_name: &CleanName,
    facts: &PathFacts,
    now_ms: i64,
    taken: F,
    relocate: M,
) -> (r: Result<String, String>)
    requires
        fs_ops::rename_leave(taken, vault@, rel_path@, *new_name, *facts),
        forall|place: Result<String, FsError>| #[trigger]
            fs_ops::rename_outcome(place, taken, vault@, rel_path@, *new_name, *facts) ==> relocate_leave(
                relocate,
                place,
                rel_path@,
                sync::recorded_all(
                    text::views(old(tombstones)@),
                    sync::file_views(files@),
                    now_ms,
                    files@.len() as int,
                ),
            ),
    ensures
        exists|place: Result<String, FsError>|
            {
                &&& #[trigger] fs_ops::rename_outcome(
                    place,
                    taken,
                    vault@,
                    rel_path@,
                    *new_name,
                    *facts,
                )
                &&& relocated(
                    relocate,
                    place,
                    rel_path@,
                    text::views(old(tombstones)@),
                    sync::file_views(files@),
                    now_ms,
                    text::views(final(tombstones)@),
                    r,
                )
            },
{
    let place = rename_entry(vault, rel_path, new_name, facts, taken);
    relocate_entry(tombstones, files, place, rel_path, now_ms, relocate)
}

/// Moves an entry into another directory at `now_ms`, and returns its new path.
/// `relocate` saves the tombstones that it is handed, moves the entry with its
/// index, and gives the files at the new place. `files` are those of the entry.
pub fn entry_move_op<
    F: Fn(&String) -> bool,
    M: Fn(&String, &Vec<Tombstone>) -> Result<Vec<String>, String>,
>(
    tombstones: &mut Vec<Tombstone>,
    files: &Vec<(String, Option<Vec<u8>>)>,
    vault: &str,
    rel_path: &str,
    new_dir_rel: &str,
    old_facts: &PathFacts,
    dir_facts: &PathFacts,
    now_ms: i64,
    taken: F,
    relocate: M,
) -> (r: Result<String, String>)
    requires
        fs_ops::move_leave(taken, vault@, rel_path@, *old_facts),
        forall|place: Result<String, FsError>| #[trigger]
            fs_ops::move_outcome(place, taken, vault@, rel_path@, new_dir_rel@, *old_facts, *dir_facts)
                ==> relocate_leave(
                relocate,
                place,
                rel_path@,
                sync::recorded_all(
                    text::views(old(tombstones)@),
                    sync::file_views(files@),
                    now_ms,
                    files@.len() as int,
                ),
            ),
    ensures
        exists|place: Result<String, FsError>|
            {
                &&& #[trigger] fs_ops::move_outcome(
                    place,
                    taken,
                    vault@,
                    rel_path@,
                    new_dir_rel@,
                    *old_facts,
                    *dir_facts,
                )
                &&& relocated(
                    relocate,
                    place,
                    rel_path@,
                    text::views(old(tombstones)@),
                    sync::file_views(files@),
                    now_ms,
                    text::views(final(tombstones)@),
                    r,
                )
            },
{
    let place = move_entry(vault, rel_path, new_dir_rel, old_facts, dir_facts, taken);
    relocate_entry(tombstones, files, place, rel_path, now_ms, relocate)
}

/// A note as it is shown.
#[derive(Debug, PartialEq, Eq)]
pub struct NoteContent {
    pub content: String,
    pub title: String,
}

/// What follows the last slash of a path.
pub open spec fn last_segment(path: Seq<char>) -> Seq<char> {
    path.skip(text::last_index(path, '/') + 1)
}

/// How many notes are remembered as recent.
pub const RECENTS_KEPT: i64 = 50;

/// How many recent notes are shown.
pub const RECENTS_SHOWN: i64 = 20;

/// How many notes a search finds at most.
pub const SEARCH_LIMIT: i64 = 50;

/// The notes that a search finds. `select` gives the rows that match a pattern,
/// and is asked for as many as are shown.
pub fn search_op<S: Fn(&String, i64) -> Result<Vec<(String, String, String)>, String>>(
    query: &str,
    select: S,
) -> (r: Result<Vec<SearchHit>, String>)
    requires
        db::search_leave(select, query@, SEARCH_LIMIT),
    ensures
        db::search_outcome(select, query@, SEARCH_LIMIT, r),
{
    search(query, SEARCH_LIMIT, select)
}

/// A note that was read at `now_ms`: it is titled after its file, and counts as
/// recent.
pub fn note_read_op(recents: &mut Vec<(String, i64)>, path: &str, content: String, now_ms: i64) -> (r: NoteContent)
    ensures
        r.content == content,
        r.title@ == fs_ops::stem_of(last_segment(path@)),
        db::dated_views(final(recents)@) == db::recents_after(
            db::dated_views(old(recents)@),
            path@,
            now_ms,
            RECENTS_KEPT,
        ),
{
    record_recent(recents, path, now_ms, RECENTS_KEPT);
    let v = to_chars(path);
    proof {
        text::lemma_last_index(path@, '/');
    }
    let from: usize = match rfind_char(&v, '/') {
        Some(i) => i + 1,
        None => 0,
    };
    let name = from_range(&v, from, v.len());
    assert(name@ =~= last_segment(path@));
    NoteContent { content, title: title_from_stem(name.as_str()) }
}

/// What writing a note came to.
#[derive(Debug, PartialEq, Eq)]
pub struct WriteResult {
    pub mtime_ms: i64,
    pub hash: String,
}

/// The row for a note that was written, and what is told of it. `mtime_ms` is
/// the time that the file then has. A tombstone of its path is dropped.
pub fn note_write_op(tombstones: &mut Vec<Tombstone>, path: &str, content: &str, mtime_ms: i64) -> (r: (
    IndexRow,
    WriteResult,
))
    ensures
        text::views(final(tombstones)@) == sync::tombstones_without(text::views(old(tombstones)@), path@),
        r.0@ == fs_ops::row_of(path@, content@, vstd::utf8::encode_utf8(content@), mtime_ms),
        r.1.mtime_ms == mtime_ms,
        r.1.hash@ == fs_ops::hash_text(vstd::utf8::encode_utf8(content@)),
{
    clear_tombstone(tombstones, path);
    let row = write_note(path, content, mtime_ms);
    let told = WriteResult { mtime_ms: row.mtime_ms, hash: row.hash.clone() };
    (row, told)
}

/// The recent notes as they are shown.
pub fn recents_list_op(recents: &Vec<(String, i64)>, titles: &StrMap<String>) -> (r: Vec<(String, String)>)
    requires
        titles.wf(),
    ensures
        text::views(r@) == db::shown_rows(db::dated_views(recents@), titles@, RECENTS_SHOWN),
{
    list_recents(recents, titles, RECENTS_SHOWN)
}

/// The favourite notes as they are shown.
pub fn favorites_list_op(favorites: &Vec<(String, i64)>, titles: &StrMap<String>) -> (r: Vec<(String, String)>)
    requires
        titles.wf(),
    ensures
        text::views(r@) == db::shown_rows(db::dated_views(favorites@), titles@, -1i64),
{
    list_favorites(favorites, titles)
}

/// Where an attachment goes that comes as base64 text.
pub open spec fn asset_saved(
    decoded: Result<Seq<u8>, Seq<char>>,
    vault: Seq<char>,
    ext: Seq<char>,
    facts: PathFacts,
) -> Result<Seq<char>, Seq<char>> {
    match decoded {
        Err(e) => Err(e),
        Ok(bytes) => match fs_ops::asset_path_of(fs_ops::hash_text(bytes), ext) {
            Err(e) => Err(e.message),
            Ok(rel) => match fs_ops::resolved(vault, rel, facts.nearest, facts.canon_vault@) {
                Err(e) => Err(e.message),
                Ok(_) => Ok(rel),
            },
        },
    }
}

/// A path with its content, or a failure, by their views.
pub open spec fn saved_view(r: Result<(String, Vec<u8>), String>) -> Result<Seq<char>, Seq<char>> {
    match r {
        Ok(p) => Ok(p.0@),
        Err(e) => Err(e@),
    }
}

/// The tombstones after an attachment was saved: its path is back.
pub open spec fn tombstones_after_save(
    s: Seq<TombstoneView>,
    saved: Result<Seq<char>, Seq<char>>,
) -> Seq<TombstoneView> {
    match saved {
        Ok(rel) => sync::tombstones_without(s, rel),
        Err(_) => s,
    }
}

/// Where decoded content goes as an attachment. A tombstone of its path is
/// dropped.
pub fn place_asset(
    tombstones: &mut Vec<Tombstone>,
    vault: &str,
    decoded: Result<Vec<u8>, String>,
    ext: &str,
    facts: &PathFacts,
) -> (r: Result<(String, Vec<u8>), String>)
    ensures
        text::views(final(tombstones)@) == tombstones_after_save(
            text::views(old(tombstones)@),
            saved_view(r),
        ),
        saved_view(r) == asset_saved(digest::decoding(decoded), vault@, ext@, *facts),
        r matches Ok(p) ==> decoded is Ok && p.1 == decoded->Ok_0,
{
    match decoded {
        Err(e) => Err(e),
        Ok(bytes) => match save_asset(vault, bytes.as_slice(), ext, facts) {
            Err(e) => Err(e.message),
            Ok(rel) => {
                clear_tombstone(tombstones, rel.as_str());
                Ok((rel, bytes))
            },
        },
    }
}

/// Where an attachment goes that comes as base64 text, with the bytes to store
/// there. A tombstone of its path is dropped.
pub fn asset_save_op(
    tombstones: &mut Vec<Tombstone>,
    vault: &str,
    data_base64: &str,
    ext: &str,
    facts: &PathFacts,
) -> (r: Result<(String, Vec<u8>), String>)
    ensures
        text::views(final(tombstones)@) == tombstones_after_save(
            text::views(old(tombstones)@),
            saved_view(r),
        ),
        saved_view(r) == asset_saved(
            sync::b64_result(digest::base64_decoded(data_base64@)),
            vault@,
            ext@,
            *facts,
        ),
        r matches Ok(p) ==> digest::base64_decoded(data_base64@) == digest::bytes_ok(p.1@),
{
    place_asset(tombstones, vault, b64_decode(data_base64), ext, facts)
}

// ---------- what the operations promise ----------

/// A directory can be opened as it is; it can be made a new vault only where no
/// note lies in it, or it could not be listed. There is no third way.
pub proof fn law_a_new_vault_is_empty_of_notes(mode: Seq<char>, names: Option<Seq<Seq<char>>>)
    ensures
        mode_fault(mode, names) is None <==> {
            ||| mode == "open"@
            ||| mode == "create"@ && (names matches Some(list) ==> forall|i: int, t: Seq<char>|
                0 <= i < list.len() ==> #[trigger] list[i] != #[trigger] (t + ".md"@))
        },
{
    reveal_strlit("open");
    reveal_strlit("create");
    assert("open"@.len() == 4 && "create"@.len() == 6);
    if names is Some {
        let list = names->0;
        assert forall|i: int| 0 <= i < list.len() implies text::ends_with(#[trigger] list[i], ".md"@) == (exists|
            t: Seq<char>,
        |
            list[i] == #[trigger] (t + ".md"@)) by {
            text::law_parts_of_a_text(list[i], ".md"@);
        }
        if has_notes(list) {
            let i = choose|i: int| 0 <= i < list.len() && text::ends_with(#[trigger] list[i], ".md"@);
            let t = choose|t: Seq<char>| list[i] == #[trigger] (t + ".md"@);
            assert(list[i] == t + ".md"@);
        } else {
            assert forall|i: int, t: Seq<char>| 0 <= i < list.len() implies #[trigger] list[i] != #[trigger] (t
                + ".md"@) by {
                assert(!text::ends_with(list[i], ".md"@));
            }
        }
    }
}

/// A directory is made only at an absolute path none of whose segments leads
/// upwards.
pub proof fn law_directories_are_made_at_plain_paths(segs: Seq<Seq<char>>, rel: Seq<char>)
    requires
        segs.len() > 0,
        forall|i: int, j: int| 0 <= i < segs.len() && 0 <= j < segs[i].len() ==> #[trigger] segs[i][j] != '/',
        rel.len() > 0 ==> rel[0] != '/',
    ensures
        is_plain_dir(seq!['/'] + text::joined(segs, '/')) <==> forall|i: int|
            0 <= i < segs.len() ==> #[trigger] segs[i] != seq!['.', '.'],
        !is_plain_dir(rel),
{
    reveal_strlit("/");
    reveal_strlit("..");
    assert("/"@ =~= seq!['/']);
    assert(".."@ =~= seq!['.', '.']);
    let none = Seq::<char>::empty();
    let all = seq![none] + segs;
    assert(all.drop_first() =~= segs);
    assert(none.push('/') =~= seq!['/']);
    assert forall|i: int, j: int| 0 <= i < all.len() && 0 <= j < all[i].len() implies #[trigger] all[i][j] != '/' by {
        if i > 0 {
            assert(all[i] == segs[i - 1]);
            assert(segs[i - 1][j] != '/');
        }
    }
    text::law_split_undoes_joining(all, '/');
    let path = seq!['/'] + text::joined(segs, '/');
    assert(path.take(1) =~= "/"@);
    if all.contains(".."@) {
        let k = choose|k: int| 0 <= k < all.len() && all[k] == ".."@;
        assert(segs[k - 1] == ".."@);
    }
    assert forall|i: int| 0 <= i < segs.len() && #[trigger] segs[i] == ".."@ implies all.contains(".."@) by {
        assert(all[i + 1] == ".."@);
    }
    if text::starts_with(rel, "/"@) {
        assert(rel.take(1)[0] == '/');
    }
}

/// An entry that moved is where it was said to go, and its files are gone from
/// where they were: each that could be read has a tombstone of that moment,
/// unless it lies at its place again, and no file at the new place has one. Where
/// nothing moves, nothing is recorded; where the disk fails, the files stay
/// recorded, and the failure is told.
pub proof fn law_moved_entries_are_told<M: Fn(&String, &Vec<Tombstone>) -> Result<Vec<String>, String>>(
    relocate: M,
    place: Result<String, FsError>,
    rel_path: Seq<char>,
    before: Seq<TombstoneView>,
    files: Seq<(Seq<char>, Option<Seq<u8>>)>,
    now_ms: i64,
    after: Seq<TombstoneView>,
    r: Result<String, String>,
)
    requires
        relocated(relocate, place, rel_path, before, files, now_ms, after, r),
    ensures
        r matches Ok(p) ==> place is Ok && p@ == place->Ok_0@,
        place is Err ==> r is Err && after == before,
        place matches Ok(new) ==> new@ == rel_path ==> r is Ok && after == before,
        place matches Ok(new) ==> new@ != rel_path && r is Ok ==> exists|p: String, l: Vec<Tombstone>, paths: Vec<
            String,
        >|
            {
                &&& #[trigger] call_ensures(relocate, (&p, &l), Ok(paths))
                &&& p@ == new@
                &&& forall|i: int|
                    0 <= i < after.len() ==> !text::views(paths@).contains((#[trigger] after[i]).path)
                &&& forall|k: int|
                    0 <= k < files.len() && (#[trigger] files[k]).1 is Some && !text::views(paths@).contains(
                        files[k].0,
                    ) ==> sync::told_gone(after, files[k].0, now_ms)
            },
        place matches Ok(new) ==> new@ != rel_path && r is Err ==> exists|p: String, l: Vec<Tombstone>, e: String|
            #[trigger] call_ensures(relocate, (&p, &l), Err(e)) && p@ == new@ && r->Err_0@ == e@ && text::views(l@)
                == after,
{
    if place is Ok && place->Ok_0@ != rel_path {
        let new = place->Ok_0;
        let recorded = sync::recorded_all(before, files, now_ms, files.len() as int);
        let done = choose|done: Result<Vec<String>, String>|
            {
                &&& #[trigger] carried(relocate, new@, recorded, done)
                &&& match done {
                    Err(e) => r is Err && r->Err_0@ == e@ && after == recorded,
                    Ok(paths) => {
                        &&& r is Ok
                        &&& r->Ok_0@ == new@
                        &&& after == sync::moved_all(before, files, text::views(paths@), now_ms)
                    },
                }
            };
        let (p, l) = choose|p: String, l: Vec<Tombstone>|
            {
                &&& #[trigger] call_ensures(relocate, (&p, &l), done)
                &&& p@ == new@
                &&& text::views(l@) == recorded
            };
        match done {
            Ok(paths) => {
                assert(call_ensures(relocate, (&p, &l), Ok(paths)));
                sync::law_moved_files_are_told(before, files, text::views(paths@), now_ms);
            },
            Err(e) => {
                assert(call_ensures(relocate, (&p, &l), Err(e)));
            },
        }
    }
}

/// A search asks for at most fifty rows, and at most twenty recent notes are
/// shown.
pub proof fn law_lists_are_limited<S: Fn(&String, i64) -> Result<Vec<(String, String, String)>, String>>(
    query: &str,
    select: S,
    r: Result<Vec<SearchHit>, String>,
    recents: &Vec<(String, i64)>,
    titles: &StrMap<String>,
    shown: Vec<(String, String)>,
    favorites: Vec<(String, String)>,
)
    requires
        call_ensures(search_op::<S>, (query, select), r),
        call_ensures(recents_list_op, (recents, titles), shown),
        call_ensures(favorites_list_op, (recents, titles), favorites),
    ensures
        text::trimmed(query@).len() > 0 ==> exists|p: String, rows: Result<Vec<(String, String, String)>, String>|
            #[trigger] call_ensures(select, (&p, 50i64), rows) && db::looks_for(p@, text::trimmed(query@)),
        shown@.len() == (if recents@.len() <= 20 {
            recents@.len()
        } else {
            20
        }),
        favorites@.len() == recents@.len(),
{
    let q = text::trimmed(query@);
    let list = db::dated_views(recents@);
    db::law_newest_notes_are_shown(list, titles@, RECENTS_SHOWN);
    db::law_newest_notes_are_shown(list, titles@, -1i64);
    assert(text::views(shown@).len() == shown@.len());
    assert(text::views(favorites@).len() == favorites@.len());
    if q.len() > 0 {
        db::law_searched_text_is_literal(q);
        reveal_strlit("%");
        assert("%"@ =~= seq!['%']);
        let (p, rows) = choose|p: String, rows: Result<Vec<(String, String, String)>, String>|
            {
                &&& #[trigger] call_ensures(select, (&p, SEARCH_LIMIT), rows)
                &&& p@ == db::pattern_of(q)
                &&& db::hits_view(r) == match rows {
                    Ok(list) => Ok(
                        db::row_views(list@).map_values(
                            |row: (Seq<char>, Seq<char>, Seq<char>)| db::hit_for(row, q),
                        ),
                    ),
                    Err(e) => Err(e@),
                }
            };
        assert(p@.subrange(1, p@.len() - 1) =~= db::escaped(q));
        assert(call_ensures(select, (&p, 50i64), rows));
    }
}

/// A new note has a row with its path and title, and nothing in it yet.
pub proof fn law_new_notes_are_empty(node: NodeView, now_ms: i64)
    ensures
        fresh_row(node, now_ms).path == node.path,
        node.title matches Some(t) ==> fresh_row(node, now_ms).title == t,
        fresh_row(node, now_ms).body.len() == 0,
        fresh_row(node, now_ms).hash.len() == 0,
        fresh_row(node, now_ms).mtime_ms == now_ms,
{
}

/// An attachment that is saved lies under the start of the hash of its content,
/// and only where it can be decoded and stays in the vault.
pub proof fn law_saved_attachments_are_named_by_content(
    decoded: Result<Seq<u8>, Seq<char>>,
    vault: Seq<char>,
    ext: Seq<char>,
    facts: PathFacts,
)
    ensures
        asset_saved(decoded, vault, ext, facts) matches Ok(rel) ==> {
            &&& decoded is Ok
            &&& fs_ops::asset_path_of(text::hex(digest::sha256(decoded->Ok_0)), ext) == Ok::<
                Seq<char>,
                fs_ops::FsErrorView,
            >(rel)
            &&& fs_ops::resolved(vault, rel, facts.nearest, facts.canon_vault@) is Ok
        },
        decoded is Ok && fs_ops::asset_path_of(text::hex(digest::sha256(decoded->Ok_0)), ext) is Ok
            && fs_ops::resolved(
            vault,
            fs_ops::asset_path_of(text::hex(digest::sha256(decoded->Ok_0)), ext)->Ok_0,
            facts.nearest,
            facts.canon_vault@,
        ) is Ok ==> asset_saved(decoded, vault, ext, facts) is Ok,
{
}

/// A note that is read is titled by the name of its file.
pub proof fn law_read_notes_are_titled_by_their_file(d: Seq<char>, stem: Seq<char>, ext: Seq<char>)
    requires
        stem.len() > 0,
        stem != "."@,
        forall|i: int| 0 <= i < stem.len() ==> #[trigger] stem[i] != '/',
        forall|i: int| 0 <= i < ext.len() ==> #[trigger] ext[i] != '/' && ext[i] != '.',
    ensures
        last_segment(fs_ops::in_dir(d, stem + seq!['.'] + ext)) == stem + seq!['.'] + ext,
        fs_ops::stem_of(last_segment(fs_ops::in_dir(d, stem + seq!['.'] + ext))) == stem,
{
    let name = stem + seq!['.'] + ext;
    let rel = fs_ops::in_dir(d, name);
    text::lemma_last_index(rel, '/');
    assert forall|i: int| 0 <= i < name.len() implies #[trigger] name[i] != '/' by {
        if i < stem.len() {
            assert(name[i] == stem[i]);
        } else if i > stem.len() {
            assert(name[i] == ext[i - stem.len() - 1]);
        }
    }
    if d.len() > 0 {
        assert(rel[d.len() as int] == '/');
        assert forall|i: int| d.len() < i < rel.len() implies rel[i] != '/' by {
            assert(rel[i] == name[i - d.len() - 1]);
        }
        assert(rel.skip(d.len() as int + 1) =~= name);
    } else {
        if text::last_index(rel, '/') >= 0 {
            assert(name[text::last_index(rel, '/')] != '/');
        }
        assert(rel.skip(0) =~= name);
    }
    let empty = Seq::<char>::empty();
    if fs_ops::frontmatter_title(empty) is None {
        fs_ops::law_notes_have_a_title(empty, d, stem, ext);
    }
    fs_ops::law_title_needs_front_matter(empty);
    assert(fs_ops::frontmatter_title(empty) is None) by {
        reveal_strlit("---\n");
        assert forall|rest: Seq<char>| empty != #[trigger] ("---\n"@ + rest) by {
            assert(("---\n"@ + rest).len() >= 4);
        }
    }
    fs_ops::law_notes_have_a_title(empty, d, stem, ext);
}

} // verus!
