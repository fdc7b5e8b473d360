//! What both sides of a sync share: the messages, the manifest, the order of
//! versions, tombstones and the names of conflict copies.
use vstd::prelude::*;

use crate::digest;
use crate::text;
use crate::fs_ops;
use crate::digest::{base64_decode, base64_encode};
use crate::fs_ops::{content_hash, file_write, FileWrite, FileWriteView};
use crate::text::{concat, concat3, decimal2_u64, decimal_u64, find_ext, from_range, rfind_char, same, str_lt, to_chars};

verus! {

/// One unit of sync, a note or an attachment, as a manifest lists it.
#[derive(Debug)]
pub struct FileMeta {
    pub path: String,
    /// `note` or `asset`.
    pub kind: String,
    pub hash: String,
    pub mtime_ms: i64,
    pub size: i64,
}

pub struct FileMetaView {
    pub path: Seq<char>,
    pub kind: Seq<char>,
    pub hash: Seq<char>,
    pub mtime_ms: i64,
    pub size: i64,
}

impl View for FileMeta {
    type V = FileMetaView;

    open spec fn view(&self) -> FileMetaView {
        FileMetaView {
            path: self.path@,
            kind: self.kind@,
            hash: self.hash@,
            mtime_ms: self.mtime_ms,
            size: self.size,
        }
    }
}

impl Clone for FileMeta {
    fn clone(&self) -> (r: Self)
        ensures
            r == *self,
    {
        FileMeta {
            path: self.path.clone(),
            kind: self.kind.clone(),
            hash: self.hash.clone(),
            mtime_ms: self.mtime_ms,
            size: self.size,
        }
    }
}

/// The paths that a client asks for.
#[derive(Debug)]
pub struct PullRequest {
    pub paths: Vec<String>,
}

/// A file as a pull carries it.
#[derive(Debug)]
pub struct PullFile {
    pub path: String,
    pub kind: String,
    pub content_base64: String,
    pub hash: String,
    pub mtime_ms: i64,
}

pub struct PullFileView {
    pub path: Seq<char>,
    pub kind: Seq<char>,
    pub content_base64: Seq<char>,
    pub hash: Seq<char>,
    pub mtime_ms: i64,
}

impl View for PullFile {
    type V = PullFileView;

    open spec fn view(&self) -> PullFileView {
        PullFileView {
            path: self.path@,
            kind: self.kind@,
            content_base64: self.content_base64@,
            hash: self.hash@,
            mtime_ms: self.mtime_ms,
        }
    }
}

impl Clone for PullFile {
    fn clone(&self) -> (r: Self)
        ensures
            r == *self,
    {
        PullFile {
            path: self.path.clone(),
            kind: self.kind.clone(),
            content_base64: self.content_base64.clone(),
            hash: self.hash.clone(),
            mtime_ms: self.mtime_ms,
        }
    }
}

/// A file as a push carries it.
#[derive(Debug)]
pub struct PushFile {
    pub path: String,
    pub kind: String,
    pub content_base64: String,
    pub hash: String,
    pub mtime_ms: i64,
    /// The hash of the server's version that the client has seen; empty where
    /// the server has no such file.
    pub base_hash: String,
}

pub struct PushFileView {
    pub path: Seq<char>,
    pub kind: Seq<char>,
    pub content_base64: Seq<char>,
    pub hash: Seq<char>,
    pub mtime_ms: i64,
    pub base_hash: Seq<char>,
}

impl View for PushFile {
    type V = PushFileView;

    open spec fn view(&self) -> PushFileView {
        PushFileView {
            path: self.path@,
            kind: self.kind@,
            content_base64: self.content_base64@,
            hash: self.hash@,
            mtime_ms: self.mtime_ms,
            base_hash: self.base_hash@,
        }
    }
}

/// What became of one pushed or deleted file.
#[derive(Debug)]
pub struct PushResult {
    pub path: String,
    pub ok: bool,
    /// Why it failed, where `ok` is false.
    pub error: Option<String>,
    /// Where the version that lost was kept.
    pub conflict_saved_as: Option<String>,
    /// The hash under `path` on the server after the operation: the pushed
    /// hash, or that of the version which won against it. A server that does
    /// not know the field leaves it out.
    pub server_hash: Option<String>,
}

pub struct PushResultView {
    pub path: Seq<char>,
    pub ok: bool,
    pub error: Option<Seq<char>>,
    pub conflict_saved_as: Option<Seq<char>>,
    pub server_hash: Option<Seq<char>>,
}

impl View for PushResult {
    type V = PushResultView;

    open spec fn view(&self) -> PushResultView {
        PushResultView {
            path: self.path@,
            ok: self.ok,
            error: text::opt_view(self.error),
            conflict_saved_as: text::opt_view(self.conflict_saved_as),
            server_hash: text::opt_view(self.server_hash),
        }
    }
}

/// The answer to a pull.
#[derive(Debug)]
pub struct PullResponse {
    pub files: Vec<PullFile>,
    /// The paths that were asked for and not sent, each with the reason.
    pub missing: Vec<(String, String)>,
}

/// A merge that a round settled by itself.
#[derive(Debug)]
pub struct MergeEvent {
    pub path: String,
    /// `local` or `server`.
    pub winner: String,
    /// Where the losing version was kept.
    pub loser_copy: String,
    pub winner_mtime_ms: i64,
    pub loser_mtime_ms: i64,
}

pub struct MergeEventView {
    pub path: Seq<char>,
    pub winner: Seq<char>,
    pub loser_copy: Seq<char>,
    pub winner_mtime_ms: i64,
    pub loser_mtime_ms: i64,
}

impl View for MergeEvent {
    type V = MergeEventView;

    open spec fn view(&self) -> MergeEventView {
        MergeEventView {
            path: self.path@,
            winner: self.winner@,
            loser_copy: self.loser_copy@,
            winner_mtime_ms: self.winner_mtime_ms,
            loser_mtime_ms: self.loser_mtime_ms,
        }
    }
}

/// What a sync round did.
#[derive(Debug)]
pub struct SyncReport {
    pub pulled: Vec<String>,
    pub pushed: Vec<String>,
    pub conflicts: Vec<String>,
    pub skipped: usize,
    pub errors: Vec<String>,
    pub deleted: Vec<String>,
    pub merges: Vec<MergeEvent>,
}

pub struct SyncReportView {
    pub pulled: Seq<Seq<char>>,
    pub pushed: Seq<Seq<char>>,
    pub conflicts: Seq<Seq<char>>,
    pub skipped: nat,
    pub errors: Seq<Seq<char>>,
    pub deleted: Seq<Seq<char>>,
    pub merges: Seq<MergeEventView>,
}

impl View for SyncReport {
    type V = SyncReportView;

    open spec fn view(&self) -> SyncReportView {
        SyncReportView {
            pulled: text::views(self.pulled@),
            pushed: text::views(self.pushed@),
            conflicts: text::views(self.conflicts@),
            skipped: self.skipped as nat,
            errors: text::views(self.errors@),
            deleted: text::views(self.deleted@),
            merges: text::views(self.merges@),
        }
    }
}

impl SyncReportView {
    /// A report of nothing.
    pub open spec fn blank() -> SyncReportView {
        SyncReportView {
            pulled: Seq::empty(),
            pushed: Seq::empty(),
            conflicts: Seq::empty(),
            skipped: 0,
            errors: Seq::empty(),
            deleted: Seq::empty(),
            merges: Seq::empty(),
        }
    }

    /// The report with one more error.
    pub open spec fn with_error(self, e: Seq<char>) -> SyncReportView {
        SyncReportView { errors: self.errors.push(e), ..self }
    }

    /// The report with one more pulled path.
    pub open spec fn with_pulled(self, p: Seq<char>) -> SyncReportView {
        SyncReportView { pulled: self.pulled.push(p), ..self }
    }

    /// The report with one more pushed path.
    pub open spec fn with_pushed(self, p: Seq<char>) -> SyncReportView {
        SyncReportView { pushed: self.pushed.push(p), ..self }
    }

    /// The report with one more deleted path.
    pub open spec fn with_deleted(self, p: Seq<char>) -> SyncReportView {
        SyncReportView { deleted: self.deleted.push(p), ..self }
    }

    /// The report with one more merge.
    pub open spec fn with_merge(self, m: MergeEventView) -> SyncReportView {
        SyncReportView { merges: self.merges.push(m), ..self }
    }
}

impl Default for SyncReport {
    fn default() -> (r: Self)
        ensures
            r@ == SyncReportView::blank(),
    {
        let r = SyncReport {
            pulled: Vec::new(),
            pushed: Vec::new(),
            conflicts: Vec::new(),
            skipped: 0,
            errors: Vec::new(),
            deleted: Vec::new(),
            merges: Vec::new(),
        };
        assert(r@.pulled =~= Seq::empty());
        assert(r@.pushed =~= Seq::empty());
        assert(r@.conflicts =~= Seq::empty());
        assert(r@.errors =~= Seq::empty());
        assert(r@.deleted =~= Seq::empty());
        assert(r@.merges =~= Seq::empty());
        r
    }
}

impl SyncReport {
    /// Adds an error.
    pub fn add_error(&mut self, e: String)
        ensures
            final(self)@ == old(self)@.with_error(e@),
    {
        broadcast use text::lemma_views_push;
        self.errors.push(e);
    }

    /// Adds a pulled path.
    pub fn add_pulled(&mut self, p: &str)
        ensures
            final(self)@ == old(self)@.with_pulled(p@),
    {
        broadcast use text::lemma_views_push;
        self.pulled.push(p.to_owned());
    }

    /// Adds a pushed path.
    pub fn add_pushed(&mut self, p: &str)
        ensures
            final(self)@ == old(self)@.with_pushed(p@),
    {
        broadcast use text::lemma_views_push;
        self.pushed.push(p.to_owned());
    }

    /// Adds a deleted path.
    pub fn add_deleted(&mut self, p: &str)
        ensures
            final(self)@ == old(self)@.with_deleted(p@),
    {
        broadcast use text::lemma_views_push;
        self.deleted.push(p.to_owned());
    }

    /// Adds a merge.
    pub fn add_merge(&mut self, m: MergeEvent)
        ensures
            final(self)@ == old(self)@.with_merge(m@),
    {
        broadcast use text::lemma_views_push;
        self.merges.push(m);
    }
}

// ---------- manifest ----------

/// A note of the index as it lies on disk. `bytes` is missing where the file
/// cannot be read, `stat` (modification time in milliseconds, size) where its
/// metadata cannot.
pub struct NoteOnDisk {
    pub path: String,
    pub bytes: Option<Vec<u8>>,
    pub stat: Option<(i64, i64)>,
}

/// An entry of the directory of attachments. The bytes of an entry that is no
/// plain file are not looked at.
pub struct AssetOnDisk {
    pub name: String,
    pub is_file: bool,
    pub is_symlink: bool,
    pub bytes: Vec<u8>,
    pub mtime_ms: i64,
}

/// The manifest entry of a note: the content on disk decides, and a file that
/// cannot be read has none.
pub open spec fn note_meta(n: NoteOnDisk) -> Option<FileMetaView> {
    match n.bytes {
        None => None,
        Some(b) => Some(
            FileMetaView {
                path: n.path@,
                kind: "note"@,
                hash: fs_ops::hash_text(b@),
                mtime_ms: match n.stat {
                    Some((m, _)) => m,
                    None => 0,
                },
                size: match n.stat {
                    Some((_, s)) => s,
                    None => 0,
                },
            },
        ),
    }
}

/// The manifest entry of an attachment: plain files only, links are skipped.
pub open spec fn asset_meta(a: AssetOnDisk) -> Option<FileMetaView> {
    if a.is_symlink || !a.is_file {
        None
    } else {
        Some(
            FileMetaView {
                path: "assets"@ + "/"@ + a.name@,
                kind: "asset"@,
                hash: fs_ops::hash_text(a.bytes@),
                mtime_ms: a.mtime_ms,
                size: a.bytes@.len() as i64,
            },
        )
    }
}

/// The manifest entries of the attachments, in the order of the directory.
pub fn asset_walk(entries: &Vec<AssetOnDisk>) -> (r: Vec<FileMeta>)
    ensures
        text::views(r@) == entries@.filter_map(|a: AssetOnDisk| asset_meta(a)),
{
    let mut out: Vec<FileMeta> = Vec::new();
    let mut i: usize = 0;
    let ghost f = |a: AssetOnDisk| asset_meta(a);
    proof {
        assert(entries@.take(0) =~= Seq::empty());
        reveal(Seq::filter_map);
        assert(text::views(out@) =~= Seq::empty());
    }
    while i < entries.len()
        invariant
            i <= entries.len(),
            f == (|a: AssetOnDisk| asset_meta(a)),
            text::views(out@) == entries@.take(i as int).filter_map(f),
        decreases entries.len() - i,
    {
        broadcast use text::lemma_views_push;
        let e = &entries[i];
        proof {
            entries@.lemma_filter_map_take_succ(f, i as int);
        }
        if !e.is_symlink && e.is_file {
            out.push(
                FileMeta {
                    path: concat3("assets", "/", e.name.as_str()),
                    kind: "asset".to_owned(),
                    hash: content_hash(e.bytes.as_slice()),
                    mtime_ms: e.mtime_ms,
                    size: e.bytes.len() as i64,
                },
            );
        }
        i = i + 1;
    }
    assert(entries@.take(i as int) =~= entries@);
    out
}

/// The manifest of this side: the notes of the index in its order, then the
/// attachments.
pub fn local_manifest(notes: &Vec<NoteOnDisk>, assets: &Vec<AssetOnDisk>) -> (r: Vec<FileMeta>)
    ensures
        text::views(r@) == notes@.filter_map(|n: NoteOnDisk| note_meta(n)) + assets@.filter_map(
            |a: AssetOnDisk| asset_meta(a),
        ),
{
    let mut out: Vec<FileMeta> = Vec::new();
    let mut i: usize = 0;
    let ghost f = |n: NoteOnDisk| note_meta(n);
    proof {
        assert(notes@.take(0) =~= Seq::empty());
        reveal(Seq::filter_map);
        assert(text::views(out@) =~= Seq::empty());
    }
    while i < notes.len()
        invariant
            i <= notes.len(),
            f == (|n: NoteOnDisk| note_meta(n)),
            text::views(out@) == notes@.take(i as int).filter_map(f),
        decreases notes.len() - i,
    {
        broadcast use text::lemma_views_push;
        let n = &notes[i];
        proof {
            notes@.lemma_filter_map_take_succ(f, i as int);
        }
        if let Some(b) = &n.bytes {
            let (mtime_ms, size): (i64, i64) = match n.stat {
                Some(s) => s,
                None => (0, 0),
            };
            out.push(
                FileMeta {
                    path: n.path.clone(),
                    kind: "note".to_owned(),
                    hash: content_hash(b.as_slice()),
                    mtime_ms,
                    size,
                },
            );
        }
        i = i + 1;
    }
    assert(notes@.take(i as int) =~= notes@);
    let mut tail = asset_walk(assets);
    let ghost head = out@;
    let ghost rest = tail@;
    out.append(&mut tail);
    assert(text::views(out@) =~= text::views(head) + text::views(rest));
    out
}

// ---------- versions ----------

/// Whether version `a` is newer than version `b`: by modification time, then
/// by size, then by hash. A deletion counts as a version of size 0.
pub open spec fn newer(a: (i64, i64, Seq<char>), b: (i64, i64, Seq<char>)) -> bool {
    a.0 > b.0 || (a.0 == b.0 && (a.1 > b.1 || (a.1 == b.1 && text::lex_lt(b.2, a.2))))
}

/// Whether version `a` is newer than version `b`.
pub fn version_gt(a: (i64, i64, &str), b: (i64, i64, &str)) -> (r: bool)
    ensures
        r == newer((a.0, a.1, a.2@), (b.0, b.1, b.2@)),
{
    if a.0 != b.0 {
        a.0 > b.0
    } else if a.1 != b.1 {
        a.1 > b.1
    } else {
        str_lt(b.2, a.2)
    }
}

/// Both sides settle a conflict alike: of two different versions exactly one
/// is newer, and no version is newer than itself.
pub proof fn law_versions_are_totally_ordered(
    a: (i64, i64, Seq<char>),
    b: (i64, i64, Seq<char>),
)
    ensures
        a != b ==> (newer(a, b) <==> !newer(b, a)),
        a == b ==> !newer(a, b),
{
    text::lemma_lex_irreflexive(a.2);
    if a.2 != b.2 {
        text::lemma_lex_total(a.2, b.2);
    }
}

/// Newer is transitive.
pub proof fn law_newer_is_transitive(
    a: (i64, i64, Seq<char>),
    b: (i64, i64, Seq<char>),
    c: (i64, i64, Seq<char>),
)
    requires
        newer(a, b),
        newer(b, c),
    ensures
        newer(a, c),
{
    if a.0 == b.0 && b.0 == c.0 && a.1 == b.1 && b.1 == c.1 {
        text::lemma_lex_transitive(c.2, b.2, a.2);
    }
}

/// An edit with content wins against a deletion of the same millisecond.
pub proof fn law_edit_wins_a_tie_with_a_deletion(
    mtime_ms: i64,
    size: i64,
    hash: Seq<char>,
    deleted_hash: Seq<char>,
)
    requires
        size > 0,
    ensures
        newer((mtime_ms, size, hash), (mtime_ms, 0, deleted_hash)),
{
}

// ---------- tombstones ----------

/// A file that was deleted on purpose.
#[derive(Debug)]
pub struct Tombstone {
    pub path: String,
    /// The hash of the content that was deleted.
    pub hash: String,
    /// The time under which the deletion takes part in the order of versions.
    pub mtime_ms: i64,
    pub deleted_at: i64,
}

pub struct TombstoneView {
    pub path: Seq<char>,
    pub hash: Seq<char>,
    pub mtime_ms: i64,
    pub deleted_at: i64,
}

impl View for Tombstone {
    type V = TombstoneView;

    open spec fn view(&self) -> TombstoneView {
        TombstoneView {
            path: self.path@,
            hash: self.hash@,
            mtime_ms: self.mtime_ms,
            deleted_at: self.deleted_at,
        }
    }
}

impl Clone for Tombstone {
    fn clone(&self) -> (r: Self)
        ensures
            r == *self,
    {
        Tombstone {
            path: self.path.clone(),
            hash: self.hash.clone(),
            mtime_ms: self.mtime_ms,
            deleted_at: self.deleted_at,
        }
    }
}

impl TombstoneView {
    /// The deletion as a version.
    pub open spec fn version(self) -> (i64, i64, Seq<char>) {
        (self.mtime_ms, 0, self.hash)
    }
}

impl FileMetaView {
    /// The file as a version.
    pub open spec fn version(self) -> (i64, i64, Seq<char>) {
        (self.mtime_ms, self.size, self.hash)
    }
}

/// Tombstones are kept for 30 days.
pub const TOMBSTONE_TTL_MS: i64 = 2_592_000_000;

/// The tombstones of the paths other than `path`.
pub open spec fn tombstones_without(s: Seq<TombstoneView>, path: Seq<char>) -> Seq<TombstoneView> {
    s.filter(|t: TombstoneView| t.path != path)
}

/// Drops the tombstone of `path`; the others keep their order.
pub fn clear_tombstone(list: &mut Vec<Tombstone>, path: &str)
    ensures
        text::views(final(list)@) == tombstones_without(text::views(old(list)@), path@),
{
    let ghost p = |t: TombstoneView| t.path != path@;
    let mut kept: Vec<Tombstone> = Vec::new();
    let mut i: usize = 0;
    proof {
        reveal(Seq::filter);
        assert(text::views(list@).take(0).filter(p) =~= Seq::empty());
        assert(text::views(kept@) =~= Seq::empty());
    }
    while i < list.len()
        invariant
            i <= list.len(),
            p == (|t: TombstoneView| t.path != path@),
            text::views(kept@) == text::views(list@).take(i as int).filter(p),
        decreases list.len() - i,
    {
        broadcast use text::lemma_views_push;
        proof {
            let s = text::views(list@);
            assert(s.take(i + 1) =~= s.take(i as int).push(s[i as int]));
            s.take(i as int).lemma_filter_push(s[i as int], p);
        }
        if !same(list[i].path.as_str(), path) {
            kept.push(list[i].clone());
        }
        i = i + 1;
    }
    assert(text::views(list@).take(i as int) =~= text::views(list@));
    *list = kept;
}

/// Records a tombstone; an earlier one of the same path is replaced, and the
/// new one stands last.
pub fn upsert_tombstone(list: &mut Vec<Tombstone>, t: Tombstone)
    ensures
        text::views(final(list)@) == tombstones_without(text::views(old(list)@), t@.path).push(t@),
{
    broadcast use text::lemma_views_push;
    clear_tombstone(list, t.path.as_str());
    list.push(t);
}

/// Records that `path` with content `hash` was deleted at `now_ms`.
pub fn record_tombstone(list: &mut Vec<Tombstone>, path: &str, hash: &str, now_ms: i64)
    ensures
        text::views(final(list)@) == tombstones_without(text::views(old(list)@), path@).push(
            TombstoneView { path: path@, hash: hash@, mtime_ms: now_ms, deleted_at: now_ms },
        ),
{
    upsert_tombstone(
        list,
        Tombstone { path: path.to_owned(), hash: hash.to_owned(), mtime_ms: now_ms, deleted_at: now_ms },
    )
}

/// The tombstones after the first `n` files of an entry were deleted or moved
/// at `now_ms`: a file that could not be read leaves none.
pub open spec fn recorded_all(
    s: Seq<TombstoneView>,
    files: Seq<(Seq<char>, Option<Seq<u8>>)>,
    now_ms: i64,
    n: int,
) -> Seq<TombstoneView>
    decreases n,
{
    if n <= 0 || n > files.len() {
        s
    } else {
        let before = recorded_all(s, files, now_ms, n - 1);
        match files[n - 1].1 {
            None => before,
            Some(bytes) => tombstones_without(before, files[n - 1].0).push(
                TombstoneView {
                    path: files[n - 1].0,
                    hash: fs_ops::hash_text(bytes),
                    mtime_ms: now_ms,
                    deleted_at: now_ms,
                },
            ),
        }
    }
}

/// A file of an entry with its content, by their views.
pub open spec fn file_view(f: (String, Option<Vec<u8>>)) -> (Seq<char>, Option<Seq<u8>>) {
    (
        f.0@,
        match f.1 {
            Some(b) => Some(b@),
            None => None,
        },
    )
}

/// The files of an entry with their contents, by their views.
pub open spec fn file_views(s: Seq<(String, Option<Vec<u8>>)>) -> Seq<(Seq<char>, Option<Seq<u8>>)> {
    s.map_values(|f: (String, Option<Vec<u8>>)| file_view(f))
}

/// Records a tombstone for each file of an entry that is deleted or moved at
/// `now_ms`. The files come with their content, where it could be read.
pub fn record_tombstones_for_entry(
    list: &mut Vec<Tombstone>,
    files: &Vec<(String, Option<Vec<u8>>)>,
    now_ms: i64,
)
    ensures
        text::views(final(list)@) == recorded_all(
            text::views(old(list)@),
            file_views(files@),
            now_ms,
            files@.len() as int,
        ),
{
    let ghost start = text::views(list@);
    let ghost all = file_views(files@);
    let mut i: usize = 0;
    while i < files.len()
        invariant
            i <= files.len(),
            all == file_views(files@),
            text::views(list@) == recorded_all(start, all, now_ms, i as int),
        decreases files.len() - i,
    {
        assert(all[i as int] == file_view(files@[i as int]));
        if let Some(bytes) = &files[i].1 {
            let h = content_hash(bytes.as_slice());
            record_tombstone(list, files[i].0.as_str(), h.as_str(), now_ms);
        }
        i = i + 1;
    }
}

/// The tombstones without those of the first `n` paths.
pub open spec fn cleared_all(s: Seq<TombstoneView>, paths: Seq<Seq<char>>, n: int) -> Seq<TombstoneView>
    decreases n,
{
    if n <= 0 || n > paths.len() {
        s
    } else {
        tombstones_without(cleared_all(s, paths, n - 1), paths[n - 1])
    }
}

/// Drops the tombstones of the files of an entry, which are there again.
pub fn clear_tombstones_for_entry(list: &mut Vec<Tombstone>, paths: &Vec<String>)
    ensures
        text::views(final(list)@) == cleared_all(
            text::views(old(list)@),
            text::views(paths@),
            paths@.len() as int,
        ),
{
    let ghost start = text::views(list@);
    let ghost all = text::views(paths@);
    let mut i: usize = 0;
    while i < paths.len()
        invariant
            i <= paths.len(),
            all == text::views(paths@),
            text::views(list@) == cleared_all(start, all, i as int),
        decreases paths.len() - i,
    {
        assert(all[i as int] == paths@[i as int]@);
        clear_tombstone(list, paths[i].as_str());
        i = i + 1;
    }
}

/// The tombstones after an entry was moved at `now_ms`: its files are gone from
/// where they were, and are there again at `paths`.
pub open spec fn moved_all(
    s: Seq<TombstoneView>,
    files: Seq<(Seq<char>, Option<Seq<u8>>)>,
    paths: Seq<Seq<char>>,
    now_ms: i64,
) -> Seq<TombstoneView> {
    cleared_all(recorded_all(s, files, now_ms, files.len() as int), paths, paths.len() as int)
}

/// Once the tombstones of the files of an entry are dropped, none of them has
/// one, so that a path that came back is not deleted on other devices.
pub proof fn law_files_that_are_back_have_no_tombstone(
    s: Seq<TombstoneView>,
    paths: Seq<Seq<char>>,
    n: int,
    k: int,
    i: int,
)
    requires
        0 <= k < n <= paths.len(),
        0 <= i < cleared_all(s, paths, n).len(),
    ensures
        cleared_all(s, paths, n)[i].path != paths[k],
    decreases n,
{
    let before = cleared_all(s, paths, n - 1);
    let p = |t: TombstoneView| t.path != paths[n - 1];
    before.lemma_filter_pred(p, i);
    assert(cleared_all(s, paths, n) == before.filter(p));
    if k < n - 1 {
        assert(before.filter(p).contains(before.filter(p)[i]));
        before.lemma_filter_contains_rev(p, before.filter(p)[i]);
        let j = choose|j: int| 0 <= j < before.len() && before[j] == before.filter(p)[i];
        law_files_that_are_back_have_no_tombstone(s, paths, n - 1, k, j);
    }
}

/// Whether a deletion of `path` at `now_ms` is recorded.
pub open spec fn told_gone(s: Seq<TombstoneView>, path: Seq<char>, now_ms: i64) -> bool {
    exists|i: int| 0 <= i < s.len() && (#[trigger] s[i]).path == path && s[i].deleted_at == now_ms
}

proof fn lemma_still_told(s: Seq<TombstoneView>, path: Seq<char>, other: Seq<char>, now_ms: i64)
    requires
        told_gone(s, path, now_ms),
        path != other,
    ensures
        told_gone(tombstones_without(s, other), path, now_ms),
{
    let i = choose|i: int| 0 <= i < s.len() && (#[trigger] s[i]).path == path && s[i].deleted_at == now_ms;
    let p = |t: TombstoneView| t.path != other;
    s.lemma_filter_contains(p, i);
    let f = s.filter(p);
    let j = choose|j: int| 0 <= j < f.len() && f[j] == s[i];
    assert(tombstones_without(s, other) == f);
    assert(f[j].path == path);
}

proof fn lemma_recorded_is_told(
    s: Seq<TombstoneView>,
    files: Seq<(Seq<char>, Option<Seq<u8>>)>,
    now_ms: i64,
    n: int,
    k: int,
)
    requires
        0 <= k < n <= files.len(),
        files[k].1 is Some,
    ensures
        told_gone(recorded_all(s, files, now_ms, n), files[k].0, now_ms),
    decreases n,
{
    let after = recorded_all(s, files, now_ms, n);
    if files[n - 1].1 is Some && files[n - 1].0 == files[k].0 {
        assert(after.last().path == files[k].0);
        assert(after[after.len() - 1] == after.last());
    } else {
        lemma_recorded_is_told(s, files, now_ms, n - 1, k);
        if files[n - 1].1 is Some {
            let before = recorded_all(s, files, now_ms, n - 1);
            lemma_still_told(before, files[k].0, files[n - 1].0, now_ms);
            let kept = tombstones_without(before, files[n - 1].0);
            let i = choose|i: int|
                0 <= i < kept.len() && (#[trigger] kept[i]).path == files[k].0 && kept[i].deleted_at == now_ms;
            assert(after[i] == kept[i]);
        }
    }
}

proof fn lemma_cleared_still_told(
    s: Seq<TombstoneView>,
    paths: Seq<Seq<char>>,
    path: Seq<char>,
    now_ms: i64,
    n: int,
)
    requires
        told_gone(s, path, now_ms),
        !paths.contains(path),
        0 <= n <= paths.len(),
    ensures
        told_gone(cleared_all(s, paths, n), path, now_ms),
    decreases n,
{
    if n > 0 {
        lemma_cleared_still_told(s, paths, path, now_ms, n - 1);
        assert(paths.contains(paths[n - 1]));
        lemma_still_told(cleared_all(s, paths, n - 1), path, paths[n - 1], now_ms);
    }
}

/// An entry that is moved is gone from where it was and is there at its new
/// place, for other devices too: each of its files that could be read has a
/// tombstone of that moment, unless it lies at a new path, and no new path has
/// one.
pub proof fn law_moved_files_are_told(
    s: Seq<TombstoneView>,
    files: Seq<(Seq<char>, Option<Seq<u8>>)>,
    paths: Seq<Seq<char>>,
    now_ms: i64,
)
    ensures
        forall|k: int|
            0 <= k < files.len() && (#[trigger] files[k]).1 is Some && !paths.contains(files[k].0)
                ==> told_gone(moved_all(s, files, paths, now_ms), files[k].0, now_ms),
        forall|i: int|
            0 <= i < moved_all(s, files, paths, now_ms).len() ==> !paths.contains(
                (#[trigger] moved_all(s, files, paths, now_ms)[i]).path,
            ),
{
    let n = files.len() as int;
    let recorded = recorded_all(s, files, now_ms, n);
    let moved = moved_all(s, files, paths, now_ms);
    assert forall|k: int|
        0 <= k < files.len() && (#[trigger] files[k]).1 is Some && !paths.contains(files[k].0) implies told_gone(
        moved,
        files[k].0,
        now_ms,
    ) by {
        lemma_recorded_is_told(s, files, now_ms, n, k);
        lemma_cleared_still_told(recorded, paths, files[k].0, now_ms, paths.len() as int);
    }
    assert forall|i: int| 0 <= i < moved.len() implies !paths.contains((#[trigger] moved[i]).path) by {
        if paths.contains(moved[i].path) {
            let k = choose|k: int| 0 <= k < paths.len() && paths[k] == moved[i].path;
            law_files_that_are_back_have_no_tombstone(recorded, paths, paths.len() as int, k, i);
        }
    }
}

/// Whether a tombstone is past its time at `now_ms`.
pub open spec fn tombstone_expired(t: TombstoneView, now_ms: i64) -> bool {
    now_ms - t.deleted_at > TOMBSTONE_TTL_MS
}

/// Drops the tombstones that are past their time, and says how many.
pub fn purge_expired_tombstones(list: &mut Vec<Tombstone>, now_ms: i64) -> (r: usize)
    ensures
        text::views(final(list)@) == text::views(old(list)@).filter(
            |t: TombstoneView| !tombstone_expired(t, now_ms),
        ),
        r == old(list)@.len() - final(list)@.len(),
{
    let ghost p = |t: TombstoneView| !tombstone_expired(t, now_ms);
    let mut kept: Vec<Tombstone> = Vec::new();
    let mut i: usize = 0;
    proof {
        reveal(Seq::filter);
        assert(text::views(list@).take(0).filter(p) =~= Seq::empty());
        assert(text::views(kept@) =~= Seq::empty());
    }
    while i < list.len()
        invariant
            i <= list.len(),
            p == (|t: TombstoneView| !tombstone_expired(t, now_ms)),
            kept@.len() <= i,
            text::views(kept@) == text::views(list@).take(i as int).filter(p),
        decreases list.len() - i,
    {
        broadcast use text::lemma_views_push;
        proof {
            let s = text::views(list@);
            assert(s.take(i + 1) =~= s.take(i as int).push(s[i as int]));
            s.take(i as int).lemma_filter_push(s[i as int], p);
        }
        if now_ms as i128 - list[i].deleted_at as i128 <= TOMBSTONE_TTL_MS as i128 {
            kept.push(list[i].clone());
        }
        i = i + 1;
    }
    assert(text::views(list@).take(i as int) =~= text::views(list@));
    let removed: usize = list.len() - kept.len();
    *list = kept;
    removed
}

// ---------- names of conflict copies ----------

/// Whether year `y` of the Gregorian calendar is a leap year.
pub open spec fn leap_year(y: int) -> bool {
    (y % 4 == 0 && y % 100 != 0) || y % 400 == 0
}

/// The number of days of year `y`.
pub open spec fn year_len(y: int) -> int {
    if leap_year(y) {
        366
    } else {
        365
    }
}

/// The number of days of month `m` (from 1) of year `y`.
pub open spec fn month_len(y: int, m: int) -> int {
    if m == 2 {
        if leap_year(y) {
            29
        } else {
            28
        }
    } else if m == 4 || m == 6 || m == 9 || m == 11 {
        30
    } else {
        31
    }
}

/// The days from the start of 1970 to the start of year `y`.
pub open spec fn days_before_year(y: int) -> int
    decreases y - 1970,
{
    if y <= 1970 {
        0
    } else {
        days_before_year(y - 1) + year_len(y - 1)
    }
}

/// The days from the start of year `y` to the start of its month `m`.
pub open spec fn days_before_month(y: int, m: int) -> int
    decreases m,
{
    if m <= 1 {
        0
    } else {
        days_before_month(y, m - 1) + month_len(y, m - 1)
    }
}

/// Whether day number `days`, counted from 1970-01-01, is day `d` of month `m`
/// of year `y`.
pub open spec fn is_date(days: int, y: int, m: int, d: int) -> bool {
    &&& y >= 1970
    &&& 1 <= m <= 12
    &&& 1 <= d <= month_len(y, m)
    &&& days == days_before_year(y) + days_before_month(y, m) + (d - 1)
}

/// The days of 400 years, after which the calendar repeats.
pub const DAYS_PER_CYCLE: i64 = 146_097;

/// The place of day number `days` in its cycle.
pub open spec fn cycle_day(days: int) -> int {
    days % DAYS_PER_CYCLE as int
}

/// Whether day number `days` is day `d` of month `m`.
pub open spec fn is_month_day(days: int, m: int, d: int) -> bool {
    exists|y: int| is_date(cycle_day(days), y, m, d)
}

/// The month and day of day number `days`.
pub open spec fn month_day_of(days: int) -> (int, int) {
    choose|m: int, d: int| is_month_day(days, m, d)
}

/// The leap days of the years up to `y`.
spec fn leap_days(y: int) -> int {
    y / 4 - y / 100 + y / 400
}

#[verifier::spinoff_prover]
proof fn lemma_quotient_steps(y: int)
    ensures
        y / 4 == (y - 1) / 4 + if y % 4 == 0 { 1int } else { 0 },
        y / 100 == (y - 1) / 100 + if y % 100 == 0 { 1int } else { 0 },
        y / 400 == (y - 1) / 400 + if y % 400 == 0 { 1int } else { 0 },
{
}

#[verifier::spinoff_prover]
proof fn lemma_leap_day_of_year(y: int)
    ensures
        leap_days(y) == leap_days(y - 1) + (year_len(y) - 365),
{
    lemma_quotient_steps(y);
    assert(y % 100 == 0 ==> y % 4 == 0);
    assert(y % 400 == 0 ==> y % 100 == 0);
}

proof fn lemma_days_before_year(y: int)
    requires
        y >= 1970,
    ensures
        days_before_year(y) == 365 * (y - 1970) + leap_days(y - 1) - 477,
    decreases y,
{
    if y > 1970 {
        lemma_days_before_year(y - 1);
        lemma_leap_day_of_year(y - 1);
    }
}

proof fn lemma_days_before_year_grows(y: int, z: int)
    requires
        1970 <= y <= z,
    ensures
        days_before_year(y) <= days_before_year(z),
        y < z ==> days_before_year(y) + year_len(y) <= days_before_year(z),
    decreases z - y,
{
    if y < z {
        lemma_days_before_year_grows(y, z - 1);
    }
}

proof fn lemma_days_before_month_grows(y: int, m: int, n: int)
    requires
        1 <= m <= n <= 13,
    ensures
        days_before_month(y, m) <= days_before_month(y, n),
        m < n ==> days_before_month(y, m) + month_len(y, m) <= days_before_month(y, n),
    decreases n - m,
{
    if m < n {
        lemma_days_before_month_grows(y, m, n - 1);
    }
}

proof fn lemma_year_is_its_months(y: int)
    ensures
        days_before_month(y, 13) == year_len(y),
{
    reveal_with_fuel(days_before_month, 13);
}

proof fn lemma_date_in_year(days: int, y: int, m: int, d: int)
    requires
        is_date(days, y, m, d),
    ensures
        days_before_year(y) <= days < days_before_year(y) + year_len(y),
{
    lemma_days_before_month_grows(y, 1, m);
    lemma_days_before_month_grows(y, m, 13);
    lemma_year_is_its_months(y);
}

/// A day has one date.
pub proof fn law_dates_are_unique(
    days: int,
    y1: int,
    m1: int,
    d1: int,
    y2: int,
    m2: int,
    d2: int,
)
    requires
        is_date(days, y1, m1, d1),
        is_date(days, y2, m2, d2),
    ensures
        y1 == y2,
        m1 == m2,
        d1 == d2,
{
    lemma_date_in_year(days, y1, m1, d1);
    lemma_date_in_year(days, y2, m2, d2);
    if y1 < y2 {
        lemma_days_before_year_grows(y1, y2);
    } else if y2 < y1 {
        lemma_days_before_year_grows(y2, y1);
    }
    if m1 < m2 {
        lemma_days_before_month_grows(y1, m1, m2);
    } else if m2 < m1 {
        lemma_days_before_month_grows(y1, m2, m1);
    }
}

#[verifier::spinoff_prover]
proof fn lemma_years_periodic(y: int)
    requires
        y >= 2370,
    ensures
        days_before_year(y - 400) == days_before_year(y) - 146_097,
{
    lemma_days_before_year(y - 400);
    lemma_days_before_year(y);
    let n = y - 1;
    assert((n - 400) / 4 == n / 4 - 100);
    assert((n - 400) / 100 == n / 100 - 4);
    assert((n - 400) / 400 == n / 400 - 1);
}

#[verifier::spinoff_prover]
proof fn lemma_month_len_periodic(y: int, m: int)
    ensures
        month_len(y - 400, m) == month_len(y, m),
{
    vstd::arithmetic::div_mod::lemma_mod_multiples_vanish(-100, y, 4);
    vstd::arithmetic::div_mod::lemma_mod_multiples_vanish(-4, y, 100);
    vstd::arithmetic::div_mod::lemma_mod_multiples_vanish(-1, y, 400);
    assert((y - 400) % 4 == y % 4);
    assert((y - 400) % 100 == y % 100);
    assert((y - 400) % 400 == y % 400);
}

proof fn lemma_days_before_month_periodic(y: int, m: int)
    requires
        1 <= m <= 12,
    ensures
        days_before_month(y - 400, m) == days_before_month(y, m),
    decreases m,
{
    if m > 1 {
        lemma_days_before_month_periodic(y, m - 1);
        lemma_month_len_periodic(y, m - 1);
    }
}

/// The year of the first cycle with the calendar of year `y`.
proof fn lemma_cycle(days: int, y: int, m: int, d: int) -> (z: int)
    requires
        is_date(days, y, m, d),
    ensures
        is_date(cycle_day(days), z, m, d),
    decreases y,
{
    if y >= 2370 {
        lemma_years_periodic(y);
        lemma_days_before_month_periodic(y, m);
        lemma_month_len_periodic(y, m);
        assert(is_date(days - 146_097, y - 400, m, d));
        assert(cycle_day(days - 146_097) == cycle_day(days));
        lemma_cycle(days - 146_097, y - 400, m, d)
    } else {
        lemma_date_in_year(days, y, m, d);
        lemma_years_periodic(2370);
        lemma_days_before_year_grows(y, 2370);
        lemma_days_before_year_grows(1970, y);
        assert(days_before_year(1970) == 0);
        assert(cycle_day(days) == days);
        y
    }
}

/// The month and day under which a conflict copy is named are those of the
/// calendar, in every era from 1970 on.
pub proof fn law_month_day_follows_the_calendar(days: int, y: int, m: int, d: int)
    requires
        is_date(days, y, m, d),
    ensures
        month_day_of(days) == (m, d),
{
    let z = lemma_cycle(days, y, m, d);
    lemma_month_day_of(days, z, m, d);
}

proof fn lemma_month_day_of(days: int, y: int, m: int, d: int)
    requires
        is_date(cycle_day(days), y, m, d),
    ensures
        month_day_of(days) == (m, d),
{
    assert(is_month_day(days, m, d));
    let (m2, d2) = month_day_of(days);
    assert(is_month_day(days, m2, d2));
    let z = choose|z: int| is_date(cycle_day(days), z, m2, d2);
    law_dates_are_unique(cycle_day(days), y, m, d, z, m2, d2);
}

/// The date that follows another.
pub open spec fn date_after(y: int, m: int, d: int) -> (int, int) {
    if d < month_len(y, m) {
        (m, d + 1)
    } else if m < 12 {
        (m + 1, 1)
    } else {
        (1, 1)
    }
}

proof fn lemma_month_of_day(y: int, rest: int, m: int) -> (r: (int, int))
    requires
        1 <= m <= 12,
        days_before_month(y, m) <= rest < days_before_month(y, 13),
    ensures
        1 <= r.0 <= 12,
        1 <= r.1 <= month_len(y, r.0),
        rest == days_before_month(y, r.0) + r.1 - 1,
    decreases 13 - m,
{
    assert(days_before_month(y, m + 1) == days_before_month(y, m) + month_len(y, m));
    if rest < days_before_month(y, m + 1) {
        (m, rest - days_before_month(y, m) + 1)
    } else {
        lemma_month_of_day(y, rest, m + 1)
    }
}

proof fn lemma_date_from(days: int, y: int) -> (r: (int, int, int))
    requires
        y >= 1970,
        days_before_year(y) <= days,
    ensures
        is_date(days, r.0, r.1, r.2),
    decreases days - days_before_year(y),
{
    assert(days_before_year(y + 1) == days_before_year(y) + year_len(y));
    if days < days_before_year(y + 1) {
        lemma_year_is_its_months(y);
        let (m, d) = lemma_month_of_day(y, days - days_before_year(y), 1);
        (y, m, d)
    } else {
        lemma_date_from(days, y + 1)
    }
}

/// The month and day are those of the calendar before 1970 too: eras of 400
/// years have the same months and as many days, so that a day of year `y` has
/// the date of the same day so many eras later.
#[verifier::spinoff_prover]
pub proof fn law_month_day_holds_in_every_era(days: int, eras: int, y: int, m: int, d: int)
    requires
        is_date(days + eras * DAYS_PER_CYCLE, y + 400 * eras, m, d),
    ensures
        month_day_of(days) == (m, d),
        1 <= m <= 12,
        1 <= d <= month_len(y, m),
{
    let z = lemma_cycle(days + eras * DAYS_PER_CYCLE, y + 400 * eras, m, d);
    lemma_cycle_day_of_era(days, eras);
    lemma_month_day_of(days, z, m, d);
    lemma_leap_year_of_era(y, eras);
}

#[verifier::spinoff_prover]
proof fn lemma_cycle_day_of_era(days: int, eras: int)
    ensures
        cycle_day(days + eras * DAYS_PER_CYCLE) == cycle_day(days),
{
    vstd::arithmetic::div_mod::lemma_mod_multiples_vanish(eras, days, DAYS_PER_CYCLE as int);
    assert(DAYS_PER_CYCLE * eras + days == days + eras * DAYS_PER_CYCLE) by (nonlinear_arith);
}

#[verifier::spinoff_prover]
proof fn lemma_leap_year_of_era(y: int, eras: int)
    ensures
        leap_year(y + 400 * eras) == leap_year(y),
{
    vstd::arithmetic::div_mod::lemma_mod_multiples_vanish(100 * eras, y, 4);
    vstd::arithmetic::div_mod::lemma_mod_multiples_vanish(4 * eras, y, 100);
    vstd::arithmetic::div_mod::lemma_mod_multiples_vanish(eras, y, 400);
    assert(4 * (100 * eras) + y == y + 400 * eras);
    assert(100 * (4 * eras) + y == y + 400 * eras);
    assert(400 * eras + y == y + 400 * eras);
}

/// Every day, also one before 1970, has a month and a day, and the day behind it
/// has those that follow in the calendar.
pub proof fn law_days_follow_each_other(days: int)
    ensures
        exists|y: int|
            {
                &&& #[trigger] is_date(cycle_day(days), y, month_day_of(days).0, month_day_of(days).1)
                &&& month_day_of(days + 1) == date_after(y, month_day_of(days).0, month_day_of(days).1)
            },
{
    let c = cycle_day(days);
    let (y, m, d) = lemma_date_from(c, 1970);
    lemma_month_day_of(days, y, m, d);
    let (m2, d2) = date_after(y, m, d);
    let y2 = if d == month_len(y, m) && m == 12 {
        y + 1
    } else {
        y
    };
    assert(days_before_month(y, m + 1) == days_before_month(y, m) + month_len(y, m));
    lemma_year_is_its_months(y);
    assert(days_before_year(y + 1) == days_before_year(y) + year_len(y));
    assert(days_before_month(y2, 1) == 0);
    assert(is_date(c + 1, y2, m2, d2));
    let z = lemma_cycle(c + 1, y2, m2, d2);
    assert(cycle_day(c + 1) == cycle_day(days + 1));
    lemma_month_day_of(days + 1, z, m2, d2);
    assert(month_day_of(days) == (m, d));
    assert(is_date(cycle_day(days), y, month_day_of(days).0, month_day_of(days).1));
}

/// The calendar repeats after 400 years, in both directions.
pub proof fn law_calendar_repeats(days: int)
    ensures
        month_day_of(days + DAYS_PER_CYCLE) == month_day_of(days),
{
    let (y, m, d) = lemma_date_from(cycle_day(days), 1970);
    lemma_month_day_of(days, y, m, d);
    assert(cycle_day(days + DAYS_PER_CYCLE) == cycle_day(days));
    lemma_month_day_of(days + DAYS_PER_CYCLE, y, m, d);
}

/// The number of days of year `y`.
fn civil_year_len(y: i64) -> (r: i64)
    requires
        y >= 0,
    ensures
        r == year_len(y as int),
{
    if (y % 4 == 0 && y % 100 != 0) || y % 400 == 0 {
        366
    } else {
        365
    }
}

/// The month and day of a day counted from 1970-01-01.
pub fn month_day(days: i64) -> (r: (u64, u64))
    ensures
        (r.0 as int, r.1 as int) == month_day_of(days as int),
        1 <= r.0 <= 12,
        1 <= r.1 <= 31,
{
    let start: i64 = match days.checked_rem_euclid(DAYS_PER_CYCLE) {
        Some(d) => d,
        None => 0,
    };
    let mut rest: i64 = start;
    let mut year: i64 = 1970;
    loop
        invariant
            1970 <= year <= 1970 + start - rest,
            0 <= rest <= start < DAYS_PER_CYCLE,
            start == days_before_year(year as int) + rest,
        ensures
            1970 <= year <= 1970 + start,
            0 <= rest < year_len(year as int),
            start == days_before_year(year as int) + rest,
        decreases rest,
    {
        let len = civil_year_len(year);
        if rest < len {
            break;
        }
        rest = rest - len;
        year = year + 1;
    }
    let feb: i64 = if civil_year_len(year) == 366 {
        29
    } else {
        28
    };
    let ghost in_year = rest as int;
    let mut mm: u64 = 1;
    proof {
        lemma_year_is_its_months(year as int);
    }
    loop
        invariant
            1 <= mm <= 12,
            0 <= rest,
            feb == month_len(year as int, 2),
            in_year == days_before_month(year as int, mm as int) + rest,
            in_year < days_before_month(year as int, 13),
        ensures
            1 <= mm <= 12,
            0 <= rest < month_len(year as int, mm as int),
            in_year == days_before_month(year as int, mm as int) + rest,
        decreases 13 - mm,
    {
        let len: i64 = if mm == 2 {
            feb
        } else if mm == 4 || mm == 6 || mm == 9 || mm == 11 {
            30
        } else {
            31
        };
        if rest < len {
            break;
        }
        rest = rest - len;
        mm = mm + 1;
    }
    proof {
        assert(is_date(start as int, year as int, mm as int, rest + 1));
        lemma_month_day_of(days as int, year as int, mm as int, rest + 1);
    }
    (mm, (rest + 1) as u64)
}

/// The time stamp `mmdd-HHMM` (UTC) of `now_ms`.
pub open spec fn stamp(now_ms: int) -> Seq<char> {
    let secs = now_ms / 1000;
    let md = month_day_of(secs / 86_400);
    let of_day = secs % 86_400;
    text::decimal2(md.0 as nat) + text::decimal2(md.1 as nat) + "-"@ + text::decimal2((of_day / 3600) as nat) + text::decimal2(
        (of_day % 3600 / 60) as nat,
    )
}

/// The directory part of a path: what comes before the last slash.
pub open spec fn dir_part(rel: Seq<char>) -> Seq<char> {
    let i = text::last_index(rel, '/');
    if i >= 0 {
        rel.take(i)
    } else {
        Seq::empty()
    }
}

/// The last component of a path: what comes behind the last slash.
pub open spec fn name_part(rel: Seq<char>) -> Seq<char> {
    rel.skip(text::last_index(rel, '/') + 1)
}

/// The number that tells the further copies of a minute apart.
pub open spec fn attempt_suffix(attempt: nat) -> Seq<char> {
    if attempt == 0 {
        Seq::empty()
    } else {
        "-"@ + text::decimal(attempt)
    }
}

/// The name of a conflict copy: `<stem>-冲突<mmdd-HHMM>[-N]<ext>`, in the
/// directory of `rel`.
pub open spec fn conflict_name_of(rel: Seq<char>, now_ms: int, attempt: nat) -> Seq<char> {
    let name = name_part(rel);
    let j = text::ext_start(name);
    let copy = name.take(j) + "-冲突"@ + stamp(now_ms) + attempt_suffix(attempt) + name.skip(j);
    if dir_part(rel).len() == 0 {
        copy
    } else {
        dir_part(rel) + "/"@ + copy
    }
}

/// The time stamp `mmdd-HHMM` (UTC) of `now_ms`.
fn stamp_text(now_ms: i64) -> (r: String)
    ensures
        r@ == stamp(now_ms as int),
{
    let secs: i64 = match now_ms.checked_div_euclid(1000) {
        Some(s) => s,
        None => 0,
    };
    let days: i64 = match secs.checked_div_euclid(86_400) {
        Some(d) => d,
        None => 0,
    };
    let of_day: i64 = match secs.checked_rem_euclid(86_400) {
        Some(s) => s,
        None => 0,
    };
    let (mm, dd): (u64, u64) = month_day(days);
    let month = decimal2_u64(mm);
    let day = decimal2_u64(dd);
    let hour = decimal2_u64(of_day as u64 / 3600);
    let minute = decimal2_u64(of_day as u64 % 3600 / 60);
    let mut out: String = month;
    out.append(day.as_str());
    out.append("-");
    out.append(hour.as_str());
    out.append(minute.as_str());
    out
}

/// Directory, stem and extension of a path.
fn path_pieces(rel: &str) -> (r: (String, String, String))
    ensures
        r.0@ == dir_part(rel@),
        r.1@ == name_part(rel@).take(text::ext_start(name_part(rel@))),
        r.2@ == name_part(rel@).skip(text::ext_start(name_part(rel@))),
{
    let v = to_chars(rel);
    proof {
        text::lemma_last_index(rel@, '/');
        text::lemma_last_index(name_part(rel@), '.');
    }
    let (dir, from): (String, usize) = match rfind_char(&v, '/') {
        Some(i) => (from_range(&v, 0, i), i + 1),
        None => (String::new(), 0),
    };
    assert(dir@ =~= dir_part(rel@));
    let name = from_range(&v, from, v.len());
    assert(name@ =~= name_part(rel@));
    let w = to_chars(name.as_str());
    let cut = find_ext(&w);
    let stem = from_range(&w, 0, cut);
    let ext = from_range(&w, cut, w.len());
    assert(stem@ =~= name@.take(cut as int));
    assert(ext@ =~= name@.skip(cut as int));
    (dir, stem, ext)
}

/// The name of the conflict copy number `attempt` of `rel` at `now_ms`.
pub fn conflict_name(rel: &str, now_ms: i64, attempt: u32) -> (r: String)
    ensures
        r@ == conflict_name_of(rel@, now_ms as int, attempt as nat),
{
    let (dir, stem, ext) = path_pieces(rel);
    let stamp_now = stamp_text(now_ms);
    let mut copy: String = stem;
    copy.append("-冲突");
    copy.append(stamp_now.as_str());
    if attempt != 0 {
        let n = decimal_u64(attempt as u64);
        let suffix = concat("-", n.as_str());
        copy.append(suffix.as_str());
    } else {
        assert(copy@ + attempt_suffix(0) =~= copy@);
    }
    copy.append(ext.as_str());
    if dir.as_str().is_empty() {
        copy
    } else {
        concat3(dir.as_str(), "/", copy.as_str())
    }
}

/// Two copies of one file that are named in the same minute have different
/// names.
pub proof fn law_conflict_names_differ(rel: Seq<char>, now_ms: int, a: nat, b: nat)
    requires
        a != b,
    ensures
        conflict_name_of(rel, now_ms, a) != conflict_name_of(rel, now_ms, b),
{
    let name = name_part(rel);
    let j = text::ext_start(name);
    text::lemma_last_index(name, '.');
    let lead = name.take(j) + "-冲突"@ + stamp(now_ms);
    let full = if dir_part(rel).len() == 0 {
        lead
    } else {
        dir_part(rel) + "/"@ + lead
    };
    let ext = name.skip(j);
    let x = attempt_suffix(a);
    let y = attempt_suffix(b);
    assert(conflict_name_of(rel, now_ms, a) =~= full + x + ext);
    assert(conflict_name_of(rel, now_ms, b) =~= full + y + ext);
    text::lemma_number_of_decimal(a);
    text::lemma_number_of_decimal(b);
    reveal_strlit("-");
    if full + x + ext == full + y + ext {
        assert(x.len() == y.len());
        assert(x =~= (full + x + ext).subrange(full.len() as int, (full.len() + x.len()) as int));
        assert(y =~= (full + y + ext).subrange(full.len() as int, (full.len() + x.len()) as int));
        if a != 0 && b != 0 {
            assert(x.skip(1) =~= text::decimal(a));
            assert(y.skip(1) =~= text::decimal(b));
        }
    }
}

/// The copies of one minute are numbered from 2; the first has no number.
pub open spec fn attempt_number(i: int) -> nat {
    if i <= 0 {
        0
    } else {
        (i + 1) as nat
    }
}

/// The number of names that are tried for a conflict copy.
pub const CONFLICT_ATTEMPTS: u32 = 100;

/// Whether `asked` are the first names for a conflict copy of `rel`, each
/// answered by `taken` with "yes".
pub open spec fn names_taken<F: Fn(&String) -> bool>(
    taken: F,
    asked: Seq<String>,
    rel: Seq<char>,
    now_ms: int,
) -> bool {
    forall|i: int| #![trigger asked[i]]
        0 <= i < asked.len() ==> asked[i]@ == conflict_name_of(rel, now_ms, attempt_number(i))
            && call_ensures(taken, (&asked[i],), true)
}

/// Whether `r` is the name for a conflict copy of `rel`: the first one that is
/// not taken, or an error where none of the names is free.
pub open spec fn copy_named<F: Fn(&String) -> bool>(
    taken: F,
    rel: Seq<char>,
    now_ms: int,
    r: Result<String, String>,
) -> bool {
    match r {
        Ok(name) => exists|asked: Seq<String>|
            {
                &&& #[trigger] names_taken(taken, asked, rel, now_ms)
                &&& asked.len() < CONFLICT_ATTEMPTS
                &&& name@ == conflict_name_of(rel, now_ms, attempt_number(asked.len() as int))
                &&& call_ensures(taken, (&name,), false)
            },
        Err(e) => e@ == "冲突副本命名耗尽"@ && exists|asked: Seq<String>| #[trigger]
            names_taken(taken, asked, rel, now_ms) && asked.len() == CONFLICT_ATTEMPTS,
    }
}

/// The names that may be looked up for a conflict copy of `rel`: each once those
/// before it are taken.
pub open spec fn copy_name_leave<F: Fn(&String) -> bool>(taken: F, rel: Seq<char>, now_ms: int) -> bool {
    forall|s: &String, asked: Seq<String>|
        {
            &&& #[trigger] names_taken(taken, asked, rel, now_ms)
            &&& asked.len() < CONFLICT_ATTEMPTS
            &&& s@ == conflict_name_of(rel, now_ms, attempt_number(asked.len() as int))
        } ==> #[trigger] call_requires(taken, (s,))
}

/// The name for a conflict copy of `rel`: the first one that is not taken.
/// It is an error if none of the names is free.
pub fn conflict_copy_name<F: Fn(&String) -> bool>(rel: &str, now_ms: i64, taken: F) -> (r: Result<
    String,
    String,
>)
    requires
        copy_name_leave(taken, rel@, now_ms as int),
    ensures
        copy_named(taken, rel@, now_ms as int, r),
{
    let mut i: u32 = 0;
    let ghost mut asked: Seq<String> = Seq::empty();
    while i < CONFLICT_ATTEMPTS
        invariant
            i <= CONFLICT_ATTEMPTS,
            asked.len() == i,
            names_taken(taken, asked, rel@, now_ms as int),
            copy_name_leave(taken, rel@, now_ms as int),
        decreases CONFLICT_ATTEMPTS - i,
    {
        let attempt: u32 = if i == 0 {
            0
        } else {
            i + 1
        };
        let candidate = conflict_name(rel, now_ms, attempt);
        if !taken(&candidate) {
            assert(names_taken(taken, asked, rel@, now_ms as int));
            return Ok(candidate);
        }
        proof {
            let before = asked;
            asked = asked.push(candidate);
            assert forall|j: int| #![trigger asked[j]] 0 <= j < asked.len() implies asked[j]@
                == conflict_name_of(rel@, now_ms as int, attempt_number(j)) && call_ensures(
                taken,
                (&asked[j],),
                true,
            ) by {
                if j < before.len() {
                    assert(asked[j] == before[j]);
                }
            }
        }
        i = i + 1;
    }
    assert(names_taken(taken, asked, rel@, now_ms as int));
    Err("冲突副本命名耗尽".to_owned())
}

/// Whether `done` is what writing the copy came to.
pub open spec fn copy_stored<W: Fn(&FileWrite) -> Result<(), String>>(
    write: W,
    what: FileWriteView,
    done: Result<(), String>,
) -> bool {
    exists|x: FileWrite| #[trigger] call_ensures(write, (&x,), done) && x@ == what
}

/// What is written for the conflict copy `name`: it is a new file of now, and
/// tombstones are left alone.
pub open spec fn copy_write(name: Seq<char>, kind: Seq<char>, bytes: Seq<u8>, now_ms: i64) -> FileWriteView {
    fs_ops::file_write_of(name, kind, bytes, 0, now_ms, false)
}

/// Whether `r` is what keeping `bytes` under the name `named` came to.
pub open spec fn copy_outcome<W: Fn(&FileWrite) -> Result<(), String>>(
    write: W,
    named: Result<String, String>,
    kind: Seq<char>,
    bytes: Seq<u8>,
    now_ms: i64,
    r: Result<String, String>,
) -> bool {
    match named {
        Err(e) => r is Err && r->Err_0@ == e@,
        Ok(name) => exists|done: Result<(), String>|
            {
                &&& #[trigger] copy_stored(write, copy_write(name@, kind, bytes, now_ms), done)
                &&& match done {
                    Ok(_) => r is Ok && r->Ok_0@ == name@,
                    Err(e) => r is Err && r->Err_0@ == e@,
                }
            },
    }
}

/// Keeps `bytes` as a conflict copy of `rel`, and returns its name: the first
/// one that is not taken. `write` writes the copy; where no name is free,
/// nothing is written.
pub fn write_conflict_copy<F: Fn(&String) -> bool, W: Fn(&FileWrite) -> Result<(), String>>(
    rel: &str,
    kind: &str,
    bytes: &Vec<u8>,
    now_ms: i64,
    taken: F,
    write: W,
) -> (r: Result<String, String>)
    requires
        copy_name_leave(taken, rel@, now_ms as int),
        forall|x: &FileWrite, name: String|
            #[trigger] copy_named(taken, rel@, now_ms as int, Ok(name)) && x@ == copy_write(
                name@,
                kind@,
                bytes@,
                now_ms,
            ) ==> #[trigger] call_requires(write, (x,)),
    ensures
        exists|named: Result<String, String>|
            {
                &&& #[trigger] copy_named(taken, rel@, now_ms as int, named)
                &&& copy_outcome(write, named, kind@, bytes@, now_ms, r)
            },
{
    let named = conflict_copy_name(rel, now_ms, taken);
    let ghost found = named;
    assert(copy_named(taken, rel@, now_ms as int, found));
    match named {
        Err(e) => Err(e),
        Ok(name) => {
            assert(copy_named(taken, rel@, now_ms as int, Ok(name)));
            let what = file_write(name.as_str(), kind, bytes, 0, now_ms, false);
            let done = write(&what);
            assert(copy_stored(write, copy_write(name@, kind@, bytes@, now_ms), done));
            match done {
                Ok(_) => Ok(name),
                Err(e) => Err(e),
            }
        },
    }
}

// ---------- base64 ----------

/// The base64 text of `bytes`; decoding it gives them back.
pub fn b64_encode(bytes: &[u8]) -> (r: String)
    requires
        digest::base64_len(bytes@.len() as int) <= isize::MAX,
    ensures
        r@ == digest::base64_encoded(bytes@),
        digest::base64_decoded(r@) == digest::bytes_ok(bytes@),
{
    base64_encode(bytes)
}

/// What decoding comes to, the error told as a sentence.
pub open spec fn b64_result(d: Result<Seq<u8>, Seq<char>>) -> Result<Seq<u8>, Seq<char>> {
    match d {
        Ok(data) => Ok(data),
        Err(e) => Err("base64 解码失败: "@ + e),
    }
}

/// Tells the error of a decoding as a sentence.
pub fn b64_told(d: Result<Vec<u8>, String>) -> (r: Result<Vec<u8>, String>)
    ensures
        digest::decoding(r) == b64_result(digest::decoding(d)),
{
    match d {
        Ok(data) => Ok(data),
        Err(e) => Err(concat("base64 解码失败: ", e.as_str())),
    }
}

/// The bytes that the base64 text `s` stands for.
pub fn b64_decode(s: &str) -> (r: Result<Vec<u8>, String>)
    ensures
        digest::decoding(r) == b64_result(digest::base64_decoded(s@)),
{
    b64_told(base64_decode(s))
}

// ---------- what a manifest lists ----------

proof fn lemma_mapped<A>(s: Seq<A>, f: spec_fn(A) -> Option<FileMetaView>, x: FileMetaView)
    ensures
        s.filter_map(f).contains(x) <==> exists|i: int| 0 <= i < s.len() && f(#[trigger] s[i]) == Some(x),
    decreases s.len(),
{
    reveal(Seq::filter_map);
    if s.len() > 0 {
        let rest = s.drop_last();
        let head = rest.filter_map(f);
        lemma_mapped(rest, f, x);
        assert(s =~= rest.push(s.last()));
        let all = s.filter_map(f);
        if exists|i: int| 0 <= i < s.len() && f(#[trigger] s[i]) == Some(x) {
            let i = choose|i: int| 0 <= i < s.len() && f(#[trigger] s[i]) == Some(x);
            if i < rest.len() {
                assert(rest[i] == s[i]);
                let k = choose|k: int| 0 <= k < head.len() && head[k] == x;
                assert(all[k] == x);
            } else {
                assert(all[head.len() as int] == x);
            }
        }
        if all.contains(x) {
            let k = choose|k: int| 0 <= k < all.len() && all[k] == x;
            if k < head.len() {
                assert(head[k] == x);
                let i = choose|i: int| 0 <= i < rest.len() && f(#[trigger] rest[i]) == Some(x);
                assert(s[i] == rest[i]);
            } else {
                assert(f(s[s.len() - 1]) == Some(x));
            }
        }
    }
}

/// A manifest lists every note that can be read and every attachment that is a
/// file, and nothing else, each with the hash of its bytes; links are left out.
/// An attachment has the path of the directory of attachments and its name.
pub proof fn law_manifest_lists_what_is_there(
    notes: &Vec<NoteOnDisk>,
    assets: &Vec<AssetOnDisk>,
    r: Vec<FileMeta>,
    m: FileMetaView,
)
    requires
        call_ensures(local_manifest, (notes, assets), r),
    ensures
        text::views(r@).contains(m) <==> {
            ||| exists|i: int|
                {
                    &&& 0 <= i < notes@.len()
                    &&& (#[trigger] notes@[i]).bytes is Some
                    &&& m.path == notes@[i].path@
                    &&& m.kind == "note"@
                    &&& m.hash == text::hex(digest::sha256(notes@[i].bytes->0@))
                    &&& notes@[i].stat is Some ==> (m.mtime_ms, m.size) == notes@[i].stat->0
                    &&& notes@[i].stat is None ==> (m.mtime_ms, m.size) == (0i64, 0i64)
                }
            ||| exists|i: int|
                {
                    &&& 0 <= i < assets@.len()
                    &&& (#[trigger] assets@[i]).is_file
                    &&& !assets@[i].is_symlink
                    &&& m.path == "assets/"@ + assets@[i].name@
                    &&& m.kind == "asset"@
                    &&& m.hash == text::hex(digest::sha256(assets@[i].bytes@))
                    &&& m.mtime_ms == assets@[i].mtime_ms
                    &&& m.size == assets@[i].bytes@.len() as i64
                }
        },
{
    reveal_strlit("assets/");
    reveal_strlit("assets");
    reveal_strlit("/");
    assert("assets/"@ =~= "assets"@ + "/"@);
    let f = |n: NoteOnDisk| note_meta(n);
    let g = |a: AssetOnDisk| asset_meta(a);
    let a = notes@.filter_map(f);
    let b = assets@.filter_map(g);
    lemma_mapped(notes@, f, m);
    lemma_mapped(assets@, g, m);
    let s = a + b;
    assert(text::views(r@) == s);
    if a.contains(m) {
        let k = choose|k: int| 0 <= k < a.len() && a[k] == m;
        assert(s[k] == m);
        let i = choose|i: int| 0 <= i < notes@.len() && f(#[trigger] notes@[i]) == Some(m);
        assert(notes@[i].bytes is Some);
    }
    if b.contains(m) {
        let k = choose|k: int| 0 <= k < b.len() && b[k] == m;
        assert(s[a.len() + k] == m);
        let i = choose|i: int| 0 <= i < assets@.len() && g(#[trigger] assets@[i]) == Some(m);
        assert(assets@[i].is_file);
        assert("assets"@ + "/"@ + assets@[i].name@ =~= "assets/"@ + assets@[i].name@);
    }
    if s.contains(m) {
        let k = choose|k: int| 0 <= k < s.len() && s[k] == m;
        if k < a.len() {
            assert(a[k] == m);
        } else {
            assert(b[k - a.len()] == m);
        }
    }
    assert forall|i: int|
        {
            &&& 0 <= i < notes@.len()
            &&& (#[trigger] notes@[i]).bytes is Some
            &&& m.path == notes@[i].path@
            &&& m.kind == "note"@
            &&& m.hash == text::hex(digest::sha256(notes@[i].bytes->0@))
            &&& notes@[i].stat is Some ==> (m.mtime_ms, m.size) == notes@[i].stat->0
            &&& notes@[i].stat is None ==> (m.mtime_ms, m.size) == (0i64, 0i64)
        } implies a.contains(m) by {
        assert(f(notes@[i]) == Some(m));
    }
    assert forall|i: int|
        {
            &&& 0 <= i < assets@.len()
            &&& (#[trigger] assets@[i]).is_file
            &&& !assets@[i].is_symlink
            &&& m.path == "assets/"@ + assets@[i].name@
            &&& m.kind == "asset"@
            &&& m.hash == text::hex(digest::sha256(assets@[i].bytes@))
            &&& m.mtime_ms == assets@[i].mtime_ms
            &&& m.size == assets@[i].bytes@.len() as i64
        } implies b.contains(m) by {
        assert("assets"@ + "/"@ + assets@[i].name@ =~= "assets/"@ + assets@[i].name@);
        assert(g(assets@[i]) == Some(m));
    }
}

/// A version is newer by its time; at the same time the larger is, and of two of
/// one size the one with the hash that comes later.
pub proof fn law_newer_goes_by_time_size_and_hash(a: (i64, i64, Seq<char>), b: (i64, i64, Seq<char>))
    ensures
        a.0 > b.0 ==> newer(a, b),
        a.0 < b.0 ==> !newer(a, b),
        a.0 == b.0 && a.1 > b.1 ==> newer(a, b),
        a.0 == b.0 && a.1 < b.1 ==> !newer(a, b),
        a.0 == b.0 && a.1 == b.1 ==> (newer(a, b) <==> text::lex_lt(b.2, a.2)),
{
}

/// A file takes part in the order of versions with its time, size and hash; a
/// deletion with its time and hash, and no size.
pub proof fn law_versions_of_files_and_deletions(m: FileMetaView, t: TombstoneView)
    ensures
        m.version().0 == m.mtime_ms,
        m.version().1 == m.size,
        m.version().2 == m.hash,
        t.version().0 == t.mtime_ms,
        t.version().1 == 0,
        t.version().2 == t.hash,
{
}

// ---------- which tombstones stand ----------

/// Dropping the tombstone of a path leaves all others, and none of that path.
pub proof fn law_only_the_tombstone_of_the_path_goes(s: Seq<TombstoneView>, path: Seq<char>, t: TombstoneView)
    ensures
        tombstones_without(s, path).contains(t) <==> s.contains(t) && t.path != path,
{
    let f = |x: TombstoneView| x.path != path;
    if s.contains(t) && t.path != path {
        let i = choose|i: int| 0 <= i < s.len() && s[i] == t;
        s.lemma_filter_contains(f, i);
    }
    if s.filter(f).contains(t) {
        let k = choose|k: int| 0 <= k < s.filter(f).len() && s.filter(f)[k] == t;
        s.lemma_filter_pred(f, k);
        s.lemma_filter_contains_rev(f, t);
    }
}

/// Deleting an entry leaves a tombstone for each of its files that could be read,
/// with the hash of its content and the time of the deletion; a file that could
/// not be read leaves none. The tombstones of other paths stay.
pub proof fn law_deleted_files_have_tombstones(
    s: Seq<TombstoneView>,
    files: Seq<(Seq<char>, Option<Seq<u8>>)>,
    now_ms: i64,
    n: int,
    t: TombstoneView,
)
    requires
        0 <= n <= files.len(),
        forall|i: int, j: int| 0 <= i < j < files.len() ==> (#[trigger] files[i]).0 != (#[trigger] files[j]).0,
    ensures
        recorded_all(s, files, now_ms, n).contains(t) <==> {
            ||| s.contains(t) && !(exists|k: int|
                0 <= k < n && (#[trigger] files[k]).0 == t.path && files[k].1 is Some)
            ||| exists|k: int|
                {
                    &&& 0 <= k < n
                    &&& (#[trigger] files[k]).0 == t.path
                    &&& files[k].1 is Some
                    &&& t.hash == text::hex(digest::sha256(files[k].1->0))
                    &&& t.mtime_ms == now_ms
                    &&& t.deleted_at == now_ms
                }
        },
    decreases n,
{
    if n > 0 {
        law_deleted_files_have_tombstones(s, files, now_ms, n - 1, t);
        let before = recorded_all(s, files, now_ms, n - 1);
        let f = files[n - 1];
        if f.1 is Some {
            law_only_the_tombstone_of_the_path_goes(before, f.0, t);
            let x = TombstoneView {
                path: f.0,
                hash: fs_ops::hash_text(f.1->0),
                mtime_ms: now_ms,
                deleted_at: now_ms,
            };
            let kept = tombstones_without(before, f.0);
            let after = kept.push(x);
            assert(recorded_all(s, files, now_ms, n) == after);
            assert(after[kept.len() as int] == x);
            if kept.contains(t) {
                let k = choose|k: int| 0 <= k < kept.len() && kept[k] == t;
                assert(after[k] == t);
            }
            if after.contains(t) {
                let k = choose|k: int| 0 <= k < after.len() && after[k] == t;
                if k < kept.len() {
                    assert(kept[k] == t);
                } else {
                    assert(t == x);
                    assert(files[n - 1].0 == t.path);
                }
            }
            if t.path == f.0 {
                assert forall|k: int| 0 <= k < n && (#[trigger] files[k]).0 == t.path implies k == n - 1 by {}
            }
        }
    }
}

/// Files that are back have no tombstones, and no other tombstone goes.
pub proof fn law_only_tombstones_of_what_is_back_go(s: Seq<TombstoneView>, paths: Seq<Seq<char>>, n: int, t: TombstoneView)
    requires
        0 <= n <= paths.len(),
    ensures
        cleared_all(s, paths, n).contains(t) <==> s.contains(t) && !(exists|k: int|
            0 <= k < n && #[trigger] paths[k] == t.path),
    decreases n,
{
    if n > 0 {
        law_only_tombstones_of_what_is_back_go(s, paths, n - 1, t);
        law_only_the_tombstone_of_the_path_goes(cleared_all(s, paths, n - 1), paths[n - 1], t);
    }
}

/// Tombstones are kept for thirty days, to the millisecond.
pub proof fn law_tombstones_stand_for_thirty_days(t: TombstoneView, now_ms: i64)
    ensures
        tombstone_expired(t, now_ms) <==> now_ms > t.deleted_at + 30 * 24 * 60 * 60 * 1000,
{
}

// ---------- names of copies ----------

/// The months have the lengths that everyone knows; February is longer by a day
/// in years that four divides, but for centuries that four hundred does not.
pub proof fn law_months_have_their_lengths(y: int)
    ensures
        month_len(y, 1) == 31,
        month_len(y, 2) == (if y % 4 == 0 && (y % 100 != 0 || y % 400 == 0) {
            29int
        } else {
            28
        }),
        month_len(y, 3) == 31,
        month_len(y, 4) == 30,
        month_len(y, 5) == 31,
        month_len(y, 6) == 30,
        month_len(y, 7) == 31,
        month_len(y, 8) == 31,
        month_len(y, 9) == 30,
        month_len(y, 10) == 31,
        month_len(y, 11) == 30,
        month_len(y, 12) == 31,
        is_date(0, 1970, 1, 1),
{
}

/// The stamp of a moment is its month and day, and its hour and minute, each with
/// two digits.
pub proof fn law_stamp_is_the_date_and_the_minute(days: int, hour: int, minute: int, ms: int)
    requires
        0 <= hour < 24,
        0 <= minute < 60,
        0 <= ms < 60_000,
    ensures
        stamp(((days * 24 + hour) * 60 + minute) * 60_000 + ms) == text::decimal2(month_day_of(days).0 as nat)
            + text::decimal2(month_day_of(days).1 as nat) + seq!['-'] + text::decimal2(hour as nat) + text::decimal2(
            minute as nat,
        ),
{
    reveal_strlit("-");
    assert("-"@ =~= seq!['-']);
    let now = ((days * 24 + hour) * 60 + minute) * 60_000 + ms;
    let secs = now / 1000;
    let sec = ms / 1000;
    assert(now == days * 86_400_000 + hour * 3_600_000 + minute * 60_000 + ms);
    assert(secs == days * 86_400 + hour * 3600 + minute * 60 + sec);
    assert(secs / 86_400 == days);
    let of_day = secs % 86_400;
    assert(of_day == hour * 3600 + minute * 60 + sec);
    assert(of_day / 3600 == hour);
    assert(of_day % 3600 / 60 == minute);
}

/// A conflict copy lies beside its file, under the name of the file with a mark
/// and the stamp before the extension; further copies have a number behind that.
pub proof fn law_copy_lies_beside_its_file(
    d: Seq<char>,
    stem: Seq<char>,
    ext: Seq<char>,
    now_ms: int,
    attempt: nat,
)
    requires
        stem.len() > 0,
        forall|i: int| 0 <= i < stem.len() ==> #[trigger] stem[i] != '/',
        forall|i: int| 0 <= i < ext.len() ==> #[trigger] ext[i] != '/' && ext[i] != '.',
    ensures
        ({
            let number = if attempt == 0 {
                Seq::empty()
            } else {
                seq!['-'] + text::decimal(attempt)
            };
            conflict_name_of(fs_ops::in_dir(d, stem + seq!['.'] + ext), now_ms, attempt) == fs_ops::in_dir(
                d,
                stem + "-冲突"@ + stamp(now_ms) + number + (seq!['.'] + ext),
            )
        }),
{
    reveal_strlit("-");
    reveal_strlit("/");
    assert("-"@ =~= seq!['-']);
    assert("/"@ =~= seq!['/']);
    let name = stem + seq!['.'] + ext;
    let rel = fs_ops::in_dir(d, name);
    assert forall|i: int| 0 <= i < name.len() implies #[trigger] name[i] != '/' by {
        if i < stem.len() {
            assert(name[i] == stem[i]);
        } else if i > stem.len() {
            assert(name[i] == ext[i - stem.len() - 1]);
        }
    }
    text::lemma_last_index(rel, '/');
    text::law_extension_follows_the_last_dot(stem, ext);
    if d.len() > 0 {
        assert(rel[d.len() as int] == '/');
        assert forall|i: int| d.len() < i < rel.len() implies rel[i] != '/' by {
            assert(rel[i] == name[i - d.len() - 1]);
        }
        assert(rel.skip(d.len() as int + 1) =~= name);
        assert(rel.take(d.len() as int) =~= d);
    } else {
        assert(rel == name);
        if text::last_index(rel, '/') >= 0 {
            assert(name[text::last_index(rel, '/')] != '/');
        }
        assert(rel.skip(0) =~= name);
    }
    assert(name.take(stem.len() as int) =~= stem);
    assert(name.skip(stem.len() as int) =~= seq!['.'] + ext);
    assert(dir_part(rel) =~= d);
    assert(name_part(rel) == name);
    let number = if attempt == 0 {
        Seq::empty()
    } else {
        seq!['-'] + text::decimal(attempt)
    };
    assert(attempt_suffix(attempt) =~= number);
    let copy = stem + "-冲突"@ + stamp(now_ms) + number + (seq!['.'] + ext);
    assert(d.len() > 0 ==> d + "/"@ + copy =~= d.push('/') + copy);
}

/// Whether the copy number `k` of a file was found to be taken.
pub open spec fn copy_is_taken<F: Fn(&String) -> bool>(taken: F, rel: Seq<char>, now_ms: int, k: nat) -> bool {
    exists|s: String| #[trigger] call_ensures(taken, (&s,), true) && s@ == conflict_name_of(rel, now_ms, k)
}

/// The first copy of a minute has no number, further ones are numbered from 2 to
/// 100; the first that is free is written, with the bytes that it keeps, and
/// indexed where it is a note. Where all are taken nothing is written.
pub proof fn law_copies_are_written_under_a_free_name<F: Fn(&String) -> bool, W: Fn(&FileWrite) -> Result<(), String>>(
    rel: &str,
    kind: &str,
    bytes: &Vec<u8>,
    now_ms: i64,
    taken: F,
    write: W,
    r: Result<String, String>,
)
    requires
        call_ensures(write_conflict_copy::<F, W>, (rel, kind, bytes, now_ms, taken, write), r),
    ensures
        r matches Ok(name) ==> {
            &&& exists|k: nat|
                {
                    &&& k == 0 || 2 <= k <= 100
                    &&& name@ == #[trigger] conflict_name_of(rel@, now_ms as int, k)
                    &&& forall|j: nat|
                        j < k && j != 1 ==> #[trigger] copy_is_taken(taken, rel@, now_ms as int, j)
                }
            &&& exists|x: FileWrite|
                {
                    &&& #[trigger] call_ensures(write, (&x,), Ok(()))
                    &&& x@.path == name@
                    &&& x@.bytes == bytes@
                    &&& x@.time_ms is None
                    &&& !x@.revives
                    &&& x@.row is Some <==> kind@ == "note"@
                }
        },
        r is Err ==> {
            ||| forall|j: nat| j <= 100 && j != 1 ==> #[trigger] copy_is_taken(taken, rel@, now_ms as int, j)
            ||| exists|x: FileWrite, e: String| #[trigger]
                call_ensures(write, (&x,), Err(e)) && x@.bytes == bytes@ && r->Err_0@ == e@
        },
{
    let now = now_ms as int;
    let named = choose|named: Result<String, String>|
        {
            &&& #[trigger] copy_named(taken, rel@, now, named)
            &&& copy_outcome(write, named, kind@, bytes@, now_ms, r)
        };
    match named {
        Ok(name) => {
            let asked = choose|asked: Seq<String>|
                {
                    &&& #[trigger] names_taken(taken, asked, rel@, now)
                    &&& asked.len() < CONFLICT_ATTEMPTS
                    &&& name@ == conflict_name_of(rel@, now, attempt_number(asked.len() as int))
                    &&& call_ensures(taken, (&name,), false)
                };
            let k = attempt_number(asked.len() as int);
            assert forall|j: nat| j < k && j != 1 implies #[trigger] copy_is_taken(taken, rel@, now, j) by {
                let i = if j == 0 {
                    0
                } else {
                    j - 1
                };
                assert(attempt_number(i) == j);
                assert(asked[i]@ == conflict_name_of(rel@, now, attempt_number(i)));
            }
            let done = choose|done: Result<(), String>|
                {
                    &&& #[trigger] copy_stored(write, copy_write(name@, kind@, bytes@, now_ms), done)
                    &&& match done {
                        Ok(_) => r is Ok && r->Ok_0@ == name@,
                        Err(e) => r is Err && r->Err_0@ == e@,
                    }
                };
            let x = choose|x: FileWrite| #[trigger]
                call_ensures(write, (&x,), done) && x@ == copy_write(name@, kind@, bytes@, now_ms);
            match done {
                Ok(u) => {
                    assert(call_ensures(write, (&x,), Ok(())));
                    assert(r->Ok_0@ == conflict_name_of(rel@, now, k));
                },
                Err(e) => {
                    assert(call_ensures(write, (&x,), Err(e)));
                },
            }
        },
        Err(e) => {
            let asked = choose|asked: Seq<String>| #[trigger]
                names_taken(taken, asked, rel@, now) && asked.len() == CONFLICT_ATTEMPTS;
            assert forall|j: nat| j <= 100 && j != 1 implies #[trigger] copy_is_taken(taken, rel@, now, j) by {
                let i = if j == 0 {
                    0
                } else {
                    j - 1
                };
                assert(attempt_number(i) == j);
                assert(asked[i]@ == conflict_name_of(rel@, now, attempt_number(i)));
            }
        },
    }
}

/// A copy of a file without extension has the mark, the stamp and the number at
/// its end.
pub proof fn law_copy_of_a_file_without_extension(d: Seq<char>, n: Seq<char>, now_ms: int, attempt: nat)
    requires
        n.len() > 0,
        forall|i: int| 0 <= i < n.len() ==> #[trigger] n[i] != '/',
        forall|i: int| 0 < i < n.len() ==> #[trigger] n[i] != '.',
    ensures
        ({
            let number = if attempt == 0 {
                Seq::empty()
            } else {
                seq!['-'] + text::decimal(attempt)
            };
            conflict_name_of(fs_ops::in_dir(d, n), now_ms, attempt) == fs_ops::in_dir(
                d,
                n + "-冲突"@ + stamp(now_ms) + number,
            )
        }),
{
    reveal_strlit("-");
    reveal_strlit("/");
    assert("-"@ =~= seq!['-']);
    assert("/"@ =~= seq!['/']);
    let rel = fs_ops::in_dir(d, n);
    text::lemma_last_index(rel, '/');
    text::lemma_last_index(n, '.');
    if d.len() > 0 {
        assert(rel[d.len() as int] == '/');
        assert forall|i: int| d.len() < i < rel.len() implies rel[i] != '/' by {
            assert(rel[i] == n[i - d.len() - 1]);
        }
        assert(rel.skip(d.len() as int + 1) =~= n);
        assert(rel.take(d.len() as int) =~= d);
    } else {
        if text::last_index(rel, '/') >= 0 {
            assert(n[text::last_index(rel, '/')] != '/');
        }
        assert(rel.skip(0) =~= n);
    }
    if text::last_index(n, '.') > 0 {
        assert(n[text::last_index(n, '.')] != '.');
    }
    assert(text::ext_start(n) == n.len());
    assert(n.take(n.len() as int) =~= n);
    assert(n.skip(n.len() as int) =~= Seq::<char>::empty());
    assert(dir_part(rel) =~= d);
    assert(name_part(rel) == n);
    let number = if attempt == 0 {
        Seq::empty()
    } else {
        seq!['-'] + text::decimal(attempt)
    };
    assert(attempt_suffix(attempt) =~= number);
    let copy = n + "-冲突"@ + stamp(now_ms) + number;
    assert(copy + Seq::<char>::empty() =~= copy);
    assert(d.len() > 0 ==> d + "/"@ + copy =~= d.push('/') + copy);
}

} // verus!
