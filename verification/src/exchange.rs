//! The later steps of a sync round: settling conflicts, pulling and pushing.
use vstd::prelude::*;

use crate::digest;
use crate::fs_ops;
use crate::fs_ops::{content_hash, file_write, safe_join, FileWrite};
use crate::round;
use crate::round::{RoundCore, RoundView};
use crate::sync;
use crate::sync::{b64_decode, b64_encode, version_gt};
use crate::sync::{MergeEvent, MergeEventView, PullFile, PullFileView, PushFile, PushFileView, PushResult, PushResultView, SyncReport};
use crate::sync_server;
use crate::text;
use crate::text::{concat, concat3, concat4, contains_part, has_prefix, same};

verus! {

/// How many files are pulled at a time.
pub const PULL_BATCH: usize = 32;

/// How many files are pushed at a time.
pub const PUSH_BATCH: usize = 8;

// ---------- storing what was pulled ----------

/// What is wrong with a pulled file whose content decoded to `decoded` and has
/// the hash `hash`; nothing where it may be stored.
pub open spec fn pull_fault(
    f: PullFileView,
    decoded: Result<Seq<u8>, Seq<char>>,
    hash: Seq<char>,
) -> Option<Seq<char>> {
    if decoded is Err {
        Some(f.path + ": "@ + decoded->Err_0)
    } else if hash != f.hash {
        Some(f.path + ": 内容 hash 不符"@)
    } else if f.kind == "note"@ {
        None
    } else if f.kind == "asset"@ {
        if sync_server::is_asset_path(f.path) {
            None
        } else {
            Some(f.path + ": 附件路径非法"@)
        }
    } else {
        Some(f.path + ": 未知类型 "@ + f.kind)
    }
}

/// What a pulled file decodes to.
pub open spec fn pull_content(f: PullFileView) -> Result<Seq<u8>, Seq<char>> {
    sync::b64_result(digest::base64_decoded(f.content_base64))
}

/// The hash of what a pulled file decodes to.
pub open spec fn pull_hash(f: PullFileView) -> Seq<char> {
    match pull_content(f) {
        Ok(b) => fs_ops::hash_text(b),
        Err(_) => Seq::empty(),
    }
}

/// What is wrong with a pulled file, given why it did not decode, if so, and
/// the hash of its content.
pub fn check_pulled(f: &PullFile, bad: Option<&str>, hash: &str) -> (r: Option<String>)
    ensures
        text::opt_view(r) == pull_fault(
            f@,
            match bad {
                Some(e) => Err(e@),
                None => Ok(Seq::empty()),
            },
            hash@,
        ),
{
    if let Some(e) = bad {
        return Some(concat3(f.path.as_str(), ": ", e));
    }
    if !same(hash, f.hash.as_str()) {
        return Some(concat(f.path.as_str(), ": 内容 hash 不符"));
    }
    if same(f.kind.as_str(), "note") {
        None
    } else if same(f.kind.as_str(), "asset") {
        if has_prefix(f.path.as_str(), "assets/") && !contains_part(f.path.as_str(), "..") {
            None
        } else {
            Some(concat(f.path.as_str(), ": 附件路径非法"))
        }
    } else {
        Some(concat3(f.path.as_str(), ": 未知类型 ", f.kind.as_str()))
    }
}

/// Why a pulled file could not be written.
pub enum StoreFault {
    /// Its directory could not be made.
    Dir(String),
    /// The note could not be written.
    Note,
    /// The attachment could not be written.
    Asset(String),
}

/// The sentence for a pulled file that could not be written.
pub open spec fn store_fault(path: Seq<char>, f: StoreFault) -> Seq<char> {
    match f {
        StoreFault::Dir(e) => path + ": 创建目录失败: "@ + e@,
        StoreFault::Note => path + ": 写入失败"@,
        StoreFault::Asset(e) => path + ": 附件写入失败: "@ + e@,
    }
}

/// The sentence for a pulled file whose path does not stay in the vault.
pub open spec fn path_fault(f: PullFileView, e: fs_ops::FsErrorView) -> Seq<char> {
    if f.kind == "note"@ {
        f.path + ": 写入失败"@
    } else {
        f.path + ": 路径非法: "@ + e.message
    }
}

/// What is written for a pulled file. A note drops the tombstone of its path.
pub open spec fn pulled_write(f: PullFileView, now_ms: i64) -> fs_ops::FileWriteView {
    fs_ops::file_write_of(f.path, f.kind, pull_content(f)->Ok_0, f.mtime_ms, now_ms, f.kind == "note"@)
}

/// Whether `r` is what comes of writing a pulled file to the path `abs`.
pub open spec fn store_outcome<W: Fn(&String, &FileWrite) -> Option<StoreFault>>(
    write: W,
    path: Seq<char>,
    abs: Seq<char>,
    what: fs_ops::FileWriteView,
    r: Option<Seq<char>>,
) -> bool {
    exists|a: String, x: FileWrite, fault: Option<StoreFault>|
        {
            &&& #[trigger] call_ensures(write, (&a, &x), fault)
            &&& a@ == abs
            &&& x@ == what
            &&& r == match fault {
                Some(f) => Some(store_fault(path, f)),
                None => None,
            }
        }
}

/// The writes that storing a pulled file may make: none where something is
/// wrong with it or its path does not stay in the vault, else that of its
/// content to its path.
pub open spec fn store_leave<W: Fn(&String, &FileWrite) -> Option<StoreFault>>(
    write: W,
    vault: Seq<char>,
    f: PullFileView,
    now_ms: i64,
) -> bool {
    forall|a: &String, x: &FileWrite|
        {
            &&& pull_fault(f, pull_content(f), pull_hash(f)) is None
            &&& fs_ops::safe_joined(vault, f.path) == Ok::<Seq<char>, fs_ops::FsErrorView>(a@)
            &&& x@ == pulled_write(f, now_ms)
        } ==> #[trigger] call_requires(write, (a, x))
}

/// Stores a pulled file and returns what went wrong. Its content must have the
/// hash that the server says, attachments must lie in their directory, and the
/// path must stay in the vault; `write` then writes it, and is not called
/// otherwise.
pub fn store_pulled<W: Fn(&String, &FileWrite) -> Option<StoreFault>>(
    vault: &str,
    f: &PullFile,
    now_ms: i64,
    write: W,
) -> (r: Option<String>)
    requires
        store_leave(write, vault@, f@, now_ms),
    ensures
        match pull_fault(f@, pull_content(f@), pull_hash(f@)) {
            Some(why) => text::opt_view(r) == Some(why),
            None => match fs_ops::safe_joined(vault@, f@.path) {
                Err(e) => text::opt_view(r) == Some(path_fault(f@, e)),
                Ok(abs) => store_outcome(
                    write,
                    f@.path,
                    abs,
                    pulled_write(f@, now_ms),
                    text::opt_view(r),
                ),
            },
        },
{
    match b64_decode(f.content_base64.as_str()) {
        Err(e) => check_pulled(f, Some(e.as_str()), ""),
        Ok(bytes) => {
            let hash = content_hash(bytes.as_slice());
            match check_pulled(f, None, hash.as_str()) {
                Some(why) => Some(why),
                None => {
                    let revives: bool = same(f.kind.as_str(), "note");
                    let what = file_write(f.path.as_str(), f.kind.as_str(), &bytes, f.mtime_ms, now_ms, revives);
                    write_pulled(vault, f, &what, write)
                },
            }
        },
    }
}

/// Writes a pulled file whose content is in order.
fn write_pulled<W: Fn(&String, &FileWrite) -> Option<StoreFault>>(
    vault: &str,
    f: &PullFile,
    what: &FileWrite,
    write: W,
) -> (r: Option<String>)
    requires
        forall|a: &String|
            fs_ops::safe_joined(vault@, f@.path) == Ok::<Seq<char>, fs_ops::FsErrorView>(a@)
                ==> #[trigger] call_requires(write, (a, what)),
    ensures
        match fs_ops::safe_joined(vault@, f@.path) {
            Err(e) => text::opt_view(r) == Some(path_fault(f@, e)),
            Ok(abs) => store_outcome(write, f@.path, abs, what@, text::opt_view(r)),
        },
{
    let abs: String = match safe_join(vault, f.path.as_str()) {
        Ok(a) => a,
        Err(e) => {
            return if same(f.kind.as_str(), "note") {
                Some(concat(f.path.as_str(), ": 写入失败"))
            } else {
                Some(concat3(f.path.as_str(), ": 路径非法: ", e.message.as_str()))
            };
        },
    };
    let fault = write(&abs, what);
    assert(call_ensures(write, (&abs, what), fault));
    match fault {
        None => None,
        Some(StoreFault::Dir(e)) => Some(
            concat3(f.path.as_str(), ": 创建目录失败: ", e.as_str()),
        ),
        Some(StoreFault::Note) => Some(concat(f.path.as_str(), ": 写入失败")),
        Some(StoreFault::Asset(e)) => Some(
            concat3(f.path.as_str(), ": 附件写入失败: ", e.as_str()),
        ),
    }
}

/// A pulled file is written only where its content is what the server says it
/// is, with the time that the server gives where it gives one; a note is
/// indexed with that hash.
pub proof fn law_stored_content_has_its_hash(f: PullFileView, now_ms: i64)
    requires
        pull_fault(f, pull_content(f), pull_hash(f)) is None,
    ensures
        pull_content(f) is Ok,
        pulled_write(f, now_ms).path == f.path,
        fs_ops::hash_text(pulled_write(f, now_ms).bytes) == f.hash,
        f.mtime_ms > 0 ==> pulled_write(f, now_ms).time_ms == Some(f.mtime_ms as u64),
        f.kind == "note"@ ==> pulled_write(f, now_ms).row is Some && pulled_write(f, now_ms).row->0.hash == f.hash,
{
}

/// A file that the server hands out comes to the client as it lies on the
/// server: the client finds nothing wrong with it, and what it decodes to is
/// what the server read at the path.
pub proof fn law_pull_gives_back_the_file<F: Fn(&String) -> Result<Vec<u8>, String>>(
    read: F,
    manifest: Map<Seq<char>, sync::FileMetaView>,
    vault: Seq<char>,
    path: Seq<char>,
    f: PullFileView,
)
    requires
        sync_server::pulled_item(read, manifest, vault, path, Ok(f)),
        f.kind == "note"@ || (f.kind == "asset"@ && sync_server::is_asset_path(path)),
    ensures
        f.path == path,
        pull_fault(f, pull_content(f), pull_hash(f)) is None,
        exists|abs: String, bytes: Vec<u8>| #[trigger]
            call_ensures(read, (&abs,), Ok::<Vec<u8>, String>(bytes)) && abs@ == fs_ops::safe_joined(
                vault,
                path,
            )->Ok_0 && pull_content(f) == digest::bytes_ok(bytes@),
{
    let (abs, got) = choose|abs: String, got: Result<Vec<u8>, String>|
        {
            &&& #[trigger] sync_server::read_at(
                read,
                abs,
                got,
                sync_server::is_served(manifest, vault, path),
            )
            &&& sync_server::is_served(manifest, vault, path) ==> abs@ == fs_ops::safe_joined(
                vault,
                path,
            )->Ok_0
            &&& Ok::<PullFileView, Seq<char>>(f) == sync_server::served(
                manifest,
                vault,
                path,
                sync_server::read_view(got),
            )
            &&& sync_server::carries(f, got->Ok_0@)
        };
    assert(got is Ok);
    let bytes = got->Ok_0;
    assert(call_ensures(read, (&abs,), Ok::<Vec<u8>, String>(bytes)));
}

/// What a push carries of a local file.
pub open spec fn push_file_of(
    path: Seq<char>,
    kind: Seq<char>,
    base_hash: Seq<char>,
    bytes: Seq<u8>,
    mtime_ms: i64,
) -> PushFileView {
    PushFileView {
        path,
        kind,
        content_base64: digest::base64_encoded(bytes),
        hash: fs_ops::hash_text(bytes),
        mtime_ms,
        base_hash,
    }
}

/// What a push carries of a local file.
pub fn read_push_file(path: &str, kind: &str, base_hash: &str, bytes: &Vec<u8>, mtime_ms: i64) -> (r: PushFile)
    requires
        digest::base64_len(bytes@.len() as int) <= isize::MAX,
    ensures
        r@ == push_file_of(path@, kind@, base_hash@, bytes@, mtime_ms),
        sync_server::push_content(r@) == digest::bytes_ok(bytes@),
        sync_server::push_hash(r@) == r@.hash,
{
    PushFile {
        path: path.to_owned(),
        kind: kind.to_owned(),
        content_base64: b64_encode(bytes.as_slice()),
        hash: content_hash(bytes.as_slice()),
        mtime_ms,
        base_hash: base_hash.to_owned(),
    }
}

/// A file that was made ready for a push comes to the server as it lies on this
/// side: the server finds nothing wrong with it, and what it decodes to is what
/// was read here.
pub proof fn law_push_brings_the_file(
    path: Seq<char>,
    kind: Seq<char>,
    base_hash: Seq<char>,
    bytes: Seq<u8>,
    mtime_ms: i64,
    pf: PushFileView,
)
    requires
        pf == push_file_of(path, kind, base_hash, bytes, mtime_ms),
        sync_server::push_content(pf) == digest::bytes_ok(bytes),
        !sync_server::in_dot_dir(path),
        (kind == "note"@ && text::ends_with(path, ".md"@)) || (kind == "asset"@ && sync_server::is_asset_path(path)),
    ensures
        sync_server::push_fault(pf, sync_server::push_content(pf), sync_server::push_hash(pf)) is None,
        pf.path == path,
        pf.hash == fs_ops::hash_text(bytes),
{
    reveal_strlit("note");
    reveal_strlit("asset");
    assert("note"@.len() != "asset"@.len());
}

// ---------- conflicts ----------

/// What the server sent: files, and the paths that it refused with the reason;
/// or why nothing came.
pub type Fetched = Result<(Vec<PullFile>, Vec<(String, String)>), String>;

/// The one file that was asked for: the first that came, unless the server
/// refused.
pub open spec fn single_of(fetched: Fetched) -> Result<Option<PullFileView>, Seq<char>> {
    match fetched {
        Err(e) => Err(e@),
        Ok((files, missing)) => if missing@.len() > 0 {
            Err("冲突副本拉取失败 "@ + missing@[0].0@ + ": "@ + missing@[0].1@)
        } else if files@.len() > 0 {
            Ok(Some(files@[0]@))
        } else {
            Ok(None)
        },
    }
}

/// The one file that was asked for.
pub fn pull_single(fetched: &Fetched) -> (r: Result<Option<PullFile>, String>)
    ensures
        match r {
            Ok(Some(f)) => single_of(*fetched) == Ok::<Option<PullFileView>, Seq<char>>(Some(f@)),
            Ok(None) => single_of(*fetched) == Ok::<Option<PullFileView>, Seq<char>>(None),
            Err(e) => single_of(*fetched) == Err::<Option<PullFileView>, Seq<char>>(e@),
        },
{
    match fetched {
        Err(e) => Err(e.clone()),
        Ok((files, missing)) => {
            if missing.len() > 0 {
                Err(
                    concat4(
                        "冲突副本拉取失败 ",
                        missing[0].0.as_str(),
                        ": ",
                        missing[0].1.as_str(),
                    ),
                )
            } else if files.len() > 0 {
                Ok(Some(files[0].clone()))
            } else {
                Ok(None)
            }
        },
    }
}

/// What to do about a conflict next.
#[derive(Debug)]
pub enum ConflictStep {
    /// Nothing: it is settled, or reported.
    Done,
    /// Ask the server for its version.
    Fetch,
    /// Keep the local version as a conflict copy, then store the server's.
    KeepServer(PullFile),
    /// Keep the given bytes, the server's version of the given kind, as a
    /// conflict copy.
    KeepLocal(String, Vec<u8>),
}

pub enum ConflictStepView {
    Done,
    Fetch,
    KeepServer(PullFileView),
    KeepLocal(Seq<char>, Seq<u8>),
}

impl View for ConflictStep {
    type V = ConflictStepView;

    open spec fn view(&self) -> ConflictStepView {
        match self {
            ConflictStep::Done => ConflictStepView::Done,
            ConflictStep::Fetch => ConflictStepView::Fetch,
            ConflictStep::KeepServer(f) => ConflictStepView::KeepServer(f@),
            ConflictStep::KeepLocal(k, b) => ConflictStepView::KeepLocal(k@, b@),
        }
    }
}

/// The start of a conflict: a path that one side has lost in the meantime is
/// pulled or pushed; else the server's version is needed.
pub open spec fn conflict_begun(v: RoundView, path: Seq<char>) -> (RoundView, ConflictStepView) {
    if !v.local.dom().contains(path) {
        (RoundView { to_pull: v.to_pull.push(path), ..v }, ConflictStepView::Done)
    } else if !v.server.dom().contains(path) {
        (
            RoundView { to_push: v.to_push.push((path, Seq::empty())), ..v },
            ConflictStepView::Done,
        )
    } else {
        (v, ConflictStepView::Fetch)
    }
}

/// What to do about a conflict once the server's version came, given whether it
/// is the newer one.
pub open spec fn conflict_choice(server_wins: bool, fetched: Fetched) -> ConflictStepView {
    match single_of(fetched) {
        Ok(Some(f)) => if server_wins {
            ConflictStepView::KeepServer(f)
        } else {
            match pull_content(f) {
                Ok(b) => ConflictStepView::KeepLocal(f.kind, b),
                Err(_) => ConflictStepView::Done,
            }
        },
        _ => ConflictStepView::Done,
    }
}

/// Once the server's version came: the newer version keeps the path, this
/// side's where none is newer.
pub open spec fn conflict_met(v: RoundView, path: Seq<char>, fetched: Fetched) -> (
    RoundView,
    ConflictStepView,
) {
    match single_of(fetched) {
        Err(e) => (RoundView { report: v.report.with_error(e), ..v }, ConflictStepView::Done),
        Ok(None) => (
            RoundView { report: v.report.with_error("冲突副本拉取为空: "@ + path), ..v },
            ConflictStepView::Done,
        ),
        Ok(Some(f)) => if sync::newer(v.server[path].version(), v.local[path].version()) {
            (v, ConflictStepView::KeepServer(f))
        } else {
            match pull_content(f) {
                Err(e) => (
                    RoundView {
                        report: v.report.with_error("冲突副本解码失败 "@ + path + ": "@ + e),
                        ..v
                    },
                    ConflictStepView::Done,
                ),
                Ok(b) => (v, ConflictStepView::KeepLocal(f.kind, b)),
            }
        },
    }
}

/// What came of keeping the server's version.
pub enum ServerKept {
    /// The local version could not be read.
    Unread(String),
    /// The local version could not be kept as a copy.
    NoCopy(String),
    /// The local version was kept as a copy; the server's was stored, or could
    /// not be.
    Copied(String, Option<String>),
}

/// The round after the server's version was kept, or could not be.
pub open spec fn server_kept(v: RoundView, path: Seq<char>, f: PullFileView, o: ServerKept) -> RoundView {
    match o {
        ServerKept::Unread(e) => RoundView {
            report: v.report.with_error("读取本地版本失败 "@ + path + ": "@ + e@),
            ..v
        },
        ServerKept::NoCopy(e) => RoundView {
            report: v.report.with_error("冲突副本落盘失败 "@ + path + ": "@ + e@),
            ..v
        },
        ServerKept::Copied(copy, stored) => match stored {
            Some(e) => RoundView { report: v.report.with_error(e@), ..v },
            None => RoundView {
                report: v.report.with_pulled(path).with_merge(
                    MergeEventView {
                        path,
                        winner: "server"@,
                        loser_copy: copy@,
                        winner_mtime_ms: f.mtime_ms,
                        loser_mtime_ms: v.local[path].mtime_ms,
                    },
                ),
                baseline: v.baseline.insert(path, f.hash),
                ..v
            },
        },
    }
}

/// The round after this side's version was kept: the server's lies in a copy,
/// or could not be kept, and this side's is pushed against the server's hash.
pub open spec fn local_kept(v: RoundView, path: Seq<char>, saved: Result<String, String>) -> RoundView {
    RoundView {
        report: match saved {
            Ok(copy) => v.report.with_merge(
                MergeEventView {
                    path,
                    winner: "local"@,
                    loser_copy: copy@,
                    winner_mtime_ms: v.local[path].mtime_ms,
                    loser_mtime_ms: v.server[path].mtime_ms,
                },
            ),
            Err(e) => v.report.with_error("冲突副本落盘失败 "@ + path + ": "@ + e@),
        },
        to_push: v.to_push.push((path, v.server[path].hash)),
        ..v
    }
}

impl RoundCore {
    /// Starts to settle a conflict.
    pub fn begin_conflict(&mut self, path: &str) -> (r: ConflictStep)
        requires
            old(self).wf(),
        ensures
            final(self).wf(),
            (final(self)@, r@) == conflict_begun(old(self)@, path@),
    {
        broadcast use text::lemma_views_push;
        if !self.local_map.contains_key(path) {
            self.to_pull.push(path.to_owned());
            return ConflictStep::Done;
        }
        if !self.server_map.contains_key(path) {
            let none = String::new();
            assert(none@ =~= Seq::<char>::empty());
            self.to_push.push((path.to_owned(), none));
            return ConflictStep::Done;
        }
        ConflictStep::Fetch
    }

    /// Decides a conflict once the server's version came.
    pub fn meet_conflict(&mut self, path: &str, fetched: &Fetched) -> (r: ConflictStep)
        requires
            old(self).wf(),
            old(self)@.server.dom().contains(path@),
            old(self)@.local.dom().contains(path@),
        ensures
            final(self).wf(),
            (final(self)@, r@) == conflict_met(old(self)@, path@, *fetched),
            r@ == conflict_choice(
                sync::newer(old(self)@.server[path@].version(), old(self)@.local[path@].version()),
                *fetched,
            ),
    {
        let f: PullFile = match pull_single(fetched) {
            Err(e) => {
                self.report.add_error(e);
                return ConflictStep::Done;
            },
            Ok(None) => {
                self.report.add_error(concat("冲突副本拉取为空: ", path));
                return ConflictStep::Done;
            },
            Ok(Some(f)) => f,
        };
        let server_wins: bool = match (self.server_map.get(path), self.local_map.get(path)) {
            (Some(sm), Some(lm)) => version_gt(
                (sm.mtime_ms, sm.size, sm.hash.as_str()),
                (lm.mtime_ms, lm.size, lm.hash.as_str()),
            ),
            _ => false,
        };
        if server_wins {
            return ConflictStep::KeepServer(f);
        }
        match b64_decode(f.content_base64.as_str()) {
            Err(e) => {
                self.report.add_error(concat4("冲突副本解码失败 ", path, ": ", e.as_str()));
                ConflictStep::Done
            },
            Ok(bytes) => ConflictStep::KeepLocal(f.kind, bytes),
        }
    }

    /// Takes note that the server's version was kept, or could not be.
    pub fn note_server_kept(&mut self, path: &str, f: &PullFile, o: ServerKept)
        requires
            old(self).wf(),
            old(self)@.local.dom().contains(path@),
        ensures
            final(self).wf(),
            final(self)@ == server_kept(old(self)@, path@, f@, o),
    {
        match o {
            ServerKept::Unread(e) => {
                self.report.add_error(concat4("读取本地版本失败 ", path, ": ", e.as_str()));
            },
            ServerKept::NoCopy(e) => {
                self.report.add_error(concat4("冲突副本落盘失败 ", path, ": ", e.as_str()));
            },
            ServerKept::Copied(copy, stored) => match stored {
                Some(e) => {
                    self.report.add_error(e);
                },
                None => {
                    let lost: i64 = match self.local_map.get(path) {
                        Some(lm) => lm.mtime_ms,
                        None => 0,
                    };
                    self.report.add_pulled(path);
                    self.baseline.insert(path.to_owned(), f.hash.clone());
                    self.report.add_merge(
                        MergeEvent {
                            path: path.to_owned(),
                            winner: "server".to_owned(),
                            loser_copy: copy,
                            winner_mtime_ms: f.mtime_ms,
                            loser_mtime_ms: lost,
                        },
                    );
                },
            },
        }
    }

    /// Takes note that this side's version was kept, and that the server's was
    /// kept as a copy, or could not be.
    pub fn note_local_kept(&mut self, path: &str, saved: Result<String, String>)
        requires
            old(self).wf(),
            old(self)@.server.dom().contains(path@),
            old(self)@.local.dom().contains(path@),
        ensures
            final(self).wf(),
            final(self)@ == local_kept(old(self)@, path@, saved),
    {
        broadcast use text::lemma_views_push;
        let won: i64 = match self.local_map.get(path) {
            Some(lm) => lm.mtime_ms,
            None => 0,
        };
        let (lost, hash): (i64, String) = match self.server_map.get(path) {
            Some(sm) => (sm.mtime_ms, sm.hash.clone()),
            None => (0, String::new()),
        };
        match saved {
            Ok(copy) => {
                self.report.add_merge(
                    MergeEvent {
                        path: path.to_owned(),
                        winner: "local".to_owned(),
                        loser_copy: copy,
                        winner_mtime_ms: won,
                        loser_mtime_ms: lost,
                    },
                );
            },
            Err(e) => {
                self.report.add_error(concat4("冲突副本落盘失败 ", path, ": ", e.as_str()));
            },
        }
        self.to_push.push((path.to_owned(), hash));
    }
}

/// A version that is pushed with the hash of the server's current version as
/// its base takes the path without a conflict.
pub proof fn law_push_on_the_current_version_is_clean(pf: PushFileView, len: nat, current: Seq<u8>, mtime_ms: i64)
    requires
        pf.base_hash == fs_ops::hash_text(current),
    ensures
        sync_server::verdict_of(pf, len, current, mtime_ms) == sync_server::Verdict::Clean,
{
}

// ---------- pulling ----------

/// The batch of a list that starts at `start`.
pub open spec fn batch_of<T>(s: Seq<T>, start: int, size: int) -> Seq<T> {
    s.subrange(
        start,
        if start + size <= s.len() {
            start + size
        } else {
            s.len() as int
        },
    )
}

/// The report after paths were refused.
pub open spec fn after_missing(
    report: sync::SyncReportView,
    missing: Seq<(Seq<char>, Seq<char>)>,
    n: int,
) -> sync::SyncReportView
    decreases n,
{
    if n <= 0 || n > missing.len() {
        report
    } else {
        after_missing(report, missing, n - 1).with_error(
            "拉取失败 "@ + missing[n - 1].0 + ": "@ + missing[n - 1].1,
        )
    }
}

/// The round after the first `n` pulled files were stored, or could not be.
pub open spec fn after_stored(
    v: RoundView,
    files: Seq<PullFileView>,
    stored: Seq<Option<Seq<char>>>,
    n: int,
) -> RoundView
    decreases n,
{
    if n <= 0 || n > files.len() {
        v
    } else {
        let u = after_stored(v, files, stored, n - 1);
        let f = files[n - 1];
        match stored[n - 1] {
            None => RoundView {
                report: u.report.with_pulled(f.path),
                baseline: u.baseline.insert(f.path, f.hash),
                ..u
            },
            Some(e) => RoundView { report: u.report.with_error(e), ..u },
        }
    }
}

/// Storing pulled files changes neither what is to be pulled nor what is to be
/// pushed.
pub proof fn lemma_stored_keeps_lists(
    v: RoundView,
    files: Seq<PullFileView>,
    stored: Seq<Option<Seq<char>>>,
    n: int,
)
    ensures
        after_stored(v, files, stored, n).to_pull == v.to_pull,
        after_stored(v, files, stored, n).to_push == v.to_push,
    decreases n,
{
    if 0 < n <= files.len() {
        lemma_stored_keeps_lists(v, files, stored, n - 1);
    }
}

/// Texts that may be missing, by their views.
pub open spec fn opt_views(s: Seq<Option<String>>) -> Seq<Option<Seq<char>>> {
    s.map_values(|o: Option<String>| text::opt_view(o))
}

impl RoundCore {
    /// The batch to pull that starts at `start`.
    pub fn pull_batch(&self, start: usize) -> (r: Vec<String>)
        requires
            start <= self.to_pull@.len(),
        ensures
            text::views(r@) == batch_of(self@.to_pull, start as int, PULL_BATCH as int),
    {
        let end: usize = if PULL_BATCH <= self.to_pull.len() - start {
            start + PULL_BATCH
        } else {
            self.to_pull.len()
        };
        let mut out: Vec<String> = Vec::new();
        let mut i: usize = start;
        assert(text::views(out@) =~= self@.to_pull.subrange(start as int, i as int));
        while i < end
            invariant
                start <= i <= end <= self.to_pull@.len(),
                text::views(out@) == self@.to_pull.subrange(start as int, i as int),
            decreases end - i,
        {
            broadcast use text::lemma_views_push;
            out.push(self.to_pull[i].clone());
            i = i + 1;
            assert(self@.to_pull.subrange(start as int, i as int) =~= self@.to_pull.subrange(
                start as int,
                i - 1,
            ).push(self@.to_pull[i - 1]));
        }
        out
    }

    /// Takes note of a pulled batch: the paths that the server refused, and the
    /// files that were stored, or could not be.
    pub fn note_pulled(
        &mut self,
        files: &Vec<PullFile>,
        missing: &Vec<(String, String)>,
        stored: &Vec<Option<String>>,
    )
        requires
            old(self).wf(),
            stored@.len() == files@.len(),
        ensures
            final(self).wf(),
            final(self)@ == after_stored(
                RoundView {
                    report: after_missing(
                        old(self)@.report,
                        text::views(missing@),
                        missing@.len() as int,
                    ),
                    ..old(self)@
                },
                text::views(files@),
                opt_views(stored@),
                files@.len() as int,
            ),
    {
        let ghost start = self@;
        let ghost ms = text::views(missing@);
        let ghost fs = text::views(files@);
        let ghost ss = opt_views(stored@);
        let mut i: usize = 0;
        while i < missing.len()
            invariant
                i <= missing.len(),
                self.wf(),
                ms == text::views(missing@),
                self@ == (RoundView { report: after_missing(start.report, ms, i as int), ..start }),
            decreases missing.len() - i,
        {
            assert(ms[i as int] == (missing@[i as int].0@, missing@[i as int].1@));
            self.report.add_error(
                concat4("拉取失败 ", missing[i].0.as_str(), ": ", missing[i].1.as_str()),
            );
            i = i + 1;
        }
        let ghost mid = self@;
        let mut j: usize = 0;
        while j < files.len()
            invariant
                j <= files.len(),
                self.wf(),
                stored@.len() == files@.len(),
                fs == text::views(files@),
                ss == opt_views(stored@),
                self@ == after_stored(mid, fs, ss, j as int),
            decreases files.len() - j,
        {
            assert(fs[j as int] == files@[j as int]@);
            assert(ss[j as int] == text::opt_view(stored@[j as int]));
            match &stored[j] {
                None => {
                    self.report.add_pulled(files[j].path.as_str());
                    self.baseline.insert(files[j].path.clone(), files[j].hash.clone());
                },
                Some(e) => {
                    self.report.add_error(e.clone());
                },
            }
            j = j + 1;
        }
    }
}

// ---------- pushing ----------

/// What preparing a file that this side has for a push comes to: the file where
/// it can be read; a report where it cannot.
pub open spec fn prepared(
    v: RoundView,
    path: Seq<char>,
    base_hash: Seq<char>,
    read: Option<(Seq<u8>, i64)>,
) -> (RoundView, Option<PushFileView>) {
    match read {
        None => (RoundView { report: v.report.with_error("推送读取失败: "@ + path), ..v }, None),
        Some((bytes, mtime_ms)) => (
            v,
            Some(push_file_of(path, v.local[path].kind, base_hash, bytes, mtime_ms)),
        ),
    }
}

/// What was read, by its views.
pub open spec fn read_bytes(r: Option<(Vec<u8>, i64)>) -> Option<(Seq<u8>, i64)> {
    match r {
        Some((b, m)) => Some((b@, m)),
        None => None,
    }
}

/// Whether what `read` reads is small enough to be sent.
pub open spec fn reads_fit<F: Fn(&String) -> Option<(Vec<u8>, i64)>>(read: F) -> bool {
    forall|p: &String, b: Vec<u8>, m: i64| #[trigger]
        call_ensures(read, (p,), Some((b, m))) ==> digest::base64_len(b@.len() as int) <= isize::MAX
}

/// Whether `made` and `after` are what preparing a file for a push comes to: a
/// file that this side does not have is passed over.
pub open spec fn one_prepared<F: Fn(&String) -> Option<(Vec<u8>, i64)>>(
    read: F,
    v: RoundView,
    item: (Seq<char>, Seq<char>),
    after: RoundView,
    made: Option<PushFileView>,
) -> bool {
    if v.local.dom().contains(item.0) {
        exists|p: String, got: Option<(Vec<u8>, i64)>|
            {
                &&& #[trigger] call_ensures(read, (&p,), got)
                &&& p@ == item.0
                &&& (after, made) == prepared(v, item.0, item.1, read_bytes(got))
            }
    } else {
        after == v && made is None
    }
}

/// A file to push that may be missing, by its view.
pub open spec fn push_view(f: Option<PushFile>) -> Option<PushFileView> {
    match f {
        Some(p) => Some(p@),
        None => None,
    }
}

/// The position of the first file of the batch with the path, or its length.
pub open spec fn batch_index(batch: Seq<PushFileView>, path: Seq<char>) -> int
    decreases batch.len(),
{
    if batch.len() == 0 || batch[0].path == path {
        0
    } else {
        1 + batch_index(batch.drop_first(), path)
    }
}

/// What the server's answer for one pushed file comes to. An answer for a path
/// that was not pushed is ignored. Where the server holds another version than
/// the pushed one, that has to be pulled, which the flag says; else the file
/// has landed, and the baseline takes the server's hash.
pub open spec fn push_settled(v: RoundView, batch: Seq<PushFileView>, r: PushResultView) -> (
    RoundView,
    bool,
) {
    let k = batch_index(batch, r.path);
    if !(0 <= k < batch.len()) {
        (v, false)
    } else if !r.ok {
        (
            RoundView {
                report: v.report.with_error(
                    "推送失败 "@ + r.path + ": "@ + round::or_empty(r.error),
                ),
                ..v
            },
            false,
        )
    } else {
        match r.server_hash {
            Some(sh) => if sh != batch[k].hash {
                (v, true)
            } else {
                let pushed = v.report.with_pushed(r.path);
                (
                    RoundView {
                        report: match r.conflict_saved_as {
                            Some(copy) => pushed.with_merge(
                                MergeEventView {
                                    path: r.path,
                                    winner: "local"@,
                                    loser_copy: copy,
                                    winner_mtime_ms: batch[k].mtime_ms,
                                    loser_mtime_ms: 0,
                                },
                            ),
                            None => pushed,
                        },
                        baseline: v.baseline.insert(r.path, sh),
                        ..v
                    },
                    false,
                )
            },
            None => (
                RoundView {
                    report: v.report.with_pushed(r.path),
                    baseline: v.baseline.insert(r.path, batch[k].hash),
                    ..v
                },
                false,
            ),
        }
    }
}

/// Whether an answer says that the server holds another version than the one
/// that was sent.
pub open spec fn push_lost(batch: Seq<PushFileView>, r: PushResultView) -> bool {
    let k = batch_index(batch, r.path);
    &&& 0 <= k < batch.len()
    &&& r.ok
    &&& r.server_hash is Some
    &&& r.server_hash->0 != batch[k].hash
}

/// The server's version that a push lost against: the first file that came,
/// unless the server refused.
pub open spec fn correction_of(path: Seq<char>, fetched: Fetched) -> Result<PullFileView, Seq<char>> {
    match fetched {
        Err(e) => Err(path + ": 降级纠正拉取失败: "@ + e@),
        Ok((files, missing)) => if missing@.len() > 0 {
            Err(missing@[0].0@ + ": 降级纠正拉取被拒: "@ + missing@[0].1@)
        } else if files@.len() > 0 {
            Ok(files@[0]@)
        } else {
            Err(path + ": 降级纠正拉取为空"@)
        },
    }
}

/// The server's version that a push lost against.
pub fn corrective_file(path: &str, fetched: &Fetched) -> (r: Result<PullFile, String>)
    ensures
        match r {
            Ok(f) => correction_of(path@, *fetched) == Ok::<PullFileView, Seq<char>>(f@),
            Err(e) => correction_of(path@, *fetched) == Err::<PullFileView, Seq<char>>(e@),
        },
{
    match fetched {
        Err(e) => Err(concat3(path, ": 降级纠正拉取失败: ", e.as_str())),
        Ok((files, missing)) => {
            if missing.len() > 0 {
                Err(
                    concat3(
                        missing[0].0.as_str(),
                        ": 降级纠正拉取被拒: ",
                        missing[0].1.as_str(),
                    ),
                )
            } else if files.len() > 0 {
                Ok(files[0].clone())
            } else {
                Err(concat(path, ": 降级纠正拉取为空"))
            }
        },
    }
}

/// What correcting a lost push came to: hash and time of the version that was
/// stored, or why not.
pub open spec fn corrected(
    path: Seq<char>,
    f: Result<PullFileView, Seq<char>>,
    stored: Option<Seq<char>>,
) -> Result<(Seq<char>, i64), Seq<char>> {
    match f {
        Err(e) => Err(e),
        Ok(p) => match stored {
            Some(e) => Err(path + ": 降级纠正写入失败: "@ + e),
            None => Ok((p.hash, p.mtime_ms)),
        },
    }
}

/// The round after a lost push was corrected, or could not be. Where it could
/// not, the baseline holds what was pushed, so that the next round pulls.
pub open spec fn after_correction(
    v: RoundView,
    pf: PushFileView,
    copy: Option<Seq<char>>,
    o: Result<(Seq<char>, i64), Seq<char>>,
) -> RoundView {
    match o {
        Ok((hash, mtime_ms)) => RoundView {
            report: v.report.with_pulled(pf.path).with_merge(
                MergeEventView {
                    path: pf.path,
                    winner: "server"@,
                    loser_copy: round::or_empty(copy),
                    winner_mtime_ms: mtime_ms,
                    loser_mtime_ms: pf.mtime_ms,
                },
            ),
            baseline: v.baseline.insert(pf.path, hash),
            ..v
        },
        Err(e) => RoundView {
            report: v.report.with_error(e),
            baseline: v.baseline.insert(pf.path, pf.hash),
            ..v
        },
    }
}

impl RoundCore {
    /// Hands out the paths to push; the round keeps none.
    pub fn take_pushes(&mut self) -> (r: Vec<(String, String)>)
        requires
            old(self).wf(),
        ensures
            final(self).wf(),
            text::views(r@) == old(self)@.to_push,
            final(self)@ == (RoundView { to_push: Seq::empty(), ..old(self)@ }),
    {
        let mut list: Vec<(String, String)> = Vec::new();
        std::mem::swap(&mut list, &mut self.to_push);
        assert(self@.to_push =~= Seq::empty());
        list
    }

    /// Prepares a file for a push. `read` reads it, with its modification time;
    /// it is not asked for a file that this side does not have.
    pub fn prepare_push<F: Fn(&String) -> Option<(Vec<u8>, i64)>>(
        &mut self,
        path: &String,
        base_hash: &str,
        read: &F,
    ) -> (r: Option<PushFile>)
        requires
            old(self).wf(),
            old(self)@.local.dom().contains(path@) ==> call_requires(*read, (path,)),
            reads_fit(*read),
        ensures
            final(self).wf(),
            one_prepared(*read, old(self)@, (path@, base_hash@), final(self)@, push_view(r)),
    {
        let kind: String = match self.local_map.get(path.as_str()) {
            None => {
                return None;
            },
            Some(lm) => lm.kind.clone(),
        };
        let got = read(path);
        assert(call_ensures(*read, (path,), got));
        match got {
            None => {
                self.report.add_error(concat("推送读取失败: ", path.as_str()));
                None
            },
            Some((bytes, mtime_ms)) => {
                assert(call_ensures(*read, (path,), Some((bytes, mtime_ms))));
                Some(read_push_file(path.as_str(), kind.as_str(), base_hash, &bytes, mtime_ms))
            },
        }
    }

    /// Takes note of the server's answer for one pushed file. `Some` gives the
    /// position in the batch of a file that lost against the server's version,
    /// which has to be pulled.
    pub fn note_pushed(&mut self, batch: &Vec<PushFile>, r: &PushResult) -> (lost: Option<usize>)
        requires
            old(self).wf(),
        ensures
            final(self).wf(),
            (final(self)@, lost is Some) == push_settled(old(self)@, text::views(batch@), r@),
            lost is Some == push_lost(text::views(batch@), r@),
            lost matches Some(k) ==> {
                &&& k == batch_index(text::views(batch@), r@.path)
                &&& k < batch@.len()
                &&& batch@[k as int]@.path == r@.path
            },
    {
        let ghost all = text::views(batch@);
        let mut k: usize = 0;
        assert(all.skip(0) =~= all);
        while k < batch.len() && !same(batch[k].path.as_str(), r.path.as_str())
            invariant
                k <= batch.len(),
                all == text::views(batch@),
                batch_index(all, r@.path) == k + batch_index(all.skip(k as int), r@.path),
            decreases batch.len() - k,
        {
            assert(all.skip(k as int)[0] == batch@[k as int]@);
            assert(all.skip(k as int).drop_first() =~= all.skip(k + 1));
            k = k + 1;
        }
        if k >= batch.len() {
            return None;
        }
        assert(all.skip(k as int)[0] == batch@[k as int]@);
        assert(batch_index(all, r@.path) == k);
        assert(all[k as int] == batch@[k as int]@);
        let pf = &batch[k];
        if !r.ok {
            let why: String = match &r.error {
                Some(e) => e.clone(),
                None => String::new(),
            };
            assert(why@ =~= round::or_empty(r@.error));
            self.report.add_error(concat4("推送失败 ", r.path.as_str(), ": ", why.as_str()));
            return None;
        }
        match &r.server_hash {
            Some(sh) => {
                if !same(sh.as_str(), pf.hash.as_str()) {
                    return Some(k);
                }
                self.report.add_pushed(r.path.as_str());
                if let Some(copy) = &r.conflict_saved_as {
                    self.report.add_merge(
                        MergeEvent {
                            path: r.path.clone(),
                            winner: "local".to_owned(),
                            loser_copy: copy.clone(),
                            winner_mtime_ms: pf.mtime_ms,
                            loser_mtime_ms: 0,
                        },
                    );
                }
                self.baseline.insert(r.path.clone(), sh.clone());
                None
            },
            None => {
                self.report.add_pushed(r.path.as_str());
                self.baseline.insert(r.path.clone(), pf.hash.clone());
                None
            },
        }
    }

    /// Takes note that the server's version was pulled after a push lost
    /// against it, or could not be. `stored` says why it could not be stored.
    pub fn note_corrected(
        &mut self,
        pf: &PushFile,
        copy: &Option<String>,
        file: &Result<PullFile, String>,
        stored: &Option<String>,
    )
        requires
            old(self).wf(),
        ensures
            final(self).wf(),
            final(self)@ == after_correction(
                old(self)@,
                pf@,
                text::opt_view(*copy),
                corrected(
                    pf@.path,
                    match *file {
                        Ok(f) => Ok(f@),
                        Err(e) => Err(e@),
                    },
                    text::opt_view(*stored),
                ),
            ),
    {
        match file {
            Err(e) => {
                self.report.add_error(e.clone());
                self.baseline.insert(pf.path.clone(), pf.hash.clone());
            },
            Ok(f) => match stored {
                Some(e) => {
                    self.report.add_error(
                        concat3(pf.path.as_str(), ": 降级纠正写入失败: ", e.as_str()),
                    );
                    self.baseline.insert(pf.path.clone(), pf.hash.clone());
                },
                None => {
                    let loser: String = match copy {
                        Some(c) => c.clone(),
                        None => String::new(),
                    };
                    assert(loser@ =~= round::or_empty(text::opt_view(*copy)));
                    self.report.add_pulled(pf.path.as_str());
                    self.baseline.insert(pf.path.clone(), f.hash.clone());
                    self.report.add_merge(
                        MergeEvent {
                            path: pf.path.clone(),
                            winner: "server".to_owned(),
                            loser_copy: loser,
                            winner_mtime_ms: f.mtime_ms,
                            loser_mtime_ms: pf.mtime_ms,
                        },
                    );
                },
            },
        }
    }

    /// Ends the round: the baseline for the next one, and the report.
    pub fn finish(self) -> (r: (crate::strmap::StrMap<String>, SyncReport))
        requires
            self.wf(),
        ensures
            r.0.wf(),
            r.0@ == self@.baseline,
            r.1@ == self@.report,
    {
        (self.baseline, self.report)
    }
}

/// Where a push has landed, the baseline holds the hash that the server then
/// has, so that a later change of one side alone is told from one of both.
pub proof fn law_baseline_follows_the_server(v: RoundView, batch: Seq<PushFileView>, r: PushResultView)
    requires
        0 <= batch_index(batch, r.path) < batch.len(),
        r.ok,
        r.server_hash is Some,
        !push_settled(v, batch, r).1,
    ensures
        push_settled(v, batch, r).0.baseline[r.path] == r.server_hash->0,
        push_settled(v, batch, r).0.report.pushed == v.report.pushed.push(r.path),
        forall|p: Seq<char>|
            p != r.path ==> (#[trigger] push_settled(v, batch, r).0.baseline.dom().contains(p)
                == v.baseline.dom().contains(p)) && push_settled(v, batch, r).0.baseline[p]
                == v.baseline[p],
{
}

// ---------- what becomes of files in a round ----------

/// Whether a version is newer than another: by its time, then its size, then its
/// hash.
pub open spec fn is_later(a: sync::FileMetaView, b: sync::FileMetaView) -> bool {
    ||| a.mtime_ms > b.mtime_ms
    ||| a.mtime_ms == b.mtime_ms && a.size > b.size
    ||| a.mtime_ms == b.mtime_ms && a.size == b.size && text::lex_lt(b.hash, a.hash)
}

/// A pulled file is stored only as the server says it is: its content is what was
/// sent, has the hash that was sent, keeps its time, and lies at its path in the
/// vault. Only a note is indexed, and only a note drops a tombstone. A file that
/// is what it says is handed on, and its failure is told.
pub proof fn law_pulled_files_are_what_they_say<W: Fn(&String, &FileWrite) -> Option<StoreFault>>(
    vault: &str,
    f: &PullFile,
    now_ms: i64,
    write: W,
    r: Option<String>,
)
    requires
        call_ensures(store_pulled::<W>, (vault, f, now_ms, write), r),
    ensures
        r is None ==> exists|a: String, x: FileWrite|
            {
                &&& #[trigger] call_ensures(write, (&a, &x), None::<StoreFault>)
                &&& fs_ops::safe_joined(vault@, f@.path) == Ok::<Seq<char>, fs_ops::FsErrorView>(a@)
                &&& x@.path == f@.path
                &&& digest::base64_decoded(f@.content_base64) == digest::bytes_ok(x@.bytes)
                &&& text::hex(digest::sha256(x@.bytes)) == f@.hash
                &&& f@.mtime_ms > 0 ==> x@.time_ms == Some(f@.mtime_ms as u64)
                &&& x@.row is Some <==> f@.kind == "note"@
                &&& x@.revives <==> f@.kind == "note"@
            },
        r is None ==> f@.kind == "note"@ || (f@.kind == "asset"@ && (exists|t: Seq<char>|
            f@.path == #[trigger] ("assets/"@ + t)) && !(exists|a: Seq<char>, b: Seq<char>|
            f@.path == #[trigger] (a + ".."@ + b))),
        forall|b: Seq<u8>|
            {
                &&& digest::base64_decoded(f@.content_base64) == #[trigger] digest::bytes_ok(b)
                &&& text::hex(digest::sha256(b)) == f@.hash
                &&& f@.kind == "note"@ || (f@.kind == "asset"@ && sync_server::is_asset_path(f@.path))
                &&& fs_ops::safe_joined(vault@, f@.path) is Ok
            } ==> exists|a: String, x: FileWrite, fault: Option<StoreFault>| #[trigger]
                call_ensures(write, (&a, &x), fault) && x@.bytes == b && (r is None <==> fault is None),
{
    let v = f@;
    text::law_parts_of_a_text(v.path, "assets/"@);
    text::law_parts_of_a_text(v.path, ".."@);
    if pull_fault(v, pull_content(v), pull_hash(v)) is None {
        if fs_ops::safe_joined(vault@, v.path) is Ok {
            let abs = fs_ops::safe_joined(vault@, v.path)->Ok_0;
            let (a, x, fault) = choose|a: String, x: FileWrite, fault: Option<StoreFault>|
                {
                    &&& #[trigger] call_ensures(write, (&a, &x), fault)
                    &&& a@ == abs
                    &&& x@ == pulled_write(v, now_ms)
                    &&& text::opt_view(r) == match fault {
                        Some(f) => Some(store_fault(v.path, f)),
                        None => None,
                    }
                };
            assert(r is None <==> fault is None);
            assert(digest::base64_decoded(v.content_base64) is Ok);
            assert(x@.bytes == digest::base64_decoded(v.content_base64)->Ok_0);
            if fault is None {
                assert(call_ensures(write, (&a, &x), None::<StoreFault>));
            }
            assert forall|b: Seq<u8>|
                digest::base64_decoded(v.content_base64) == #[trigger] digest::bytes_ok(b) implies x@.bytes == b by {}
        }
    }
    assert forall|b: Seq<u8>|
        {
            &&& digest::base64_decoded(v.content_base64) == #[trigger] digest::bytes_ok(b)
            &&& text::hex(digest::sha256(b)) == v.hash
            &&& v.kind == "note"@ || (v.kind == "asset"@ && sync_server::is_asset_path(v.path))
            &&& fs_ops::safe_joined(vault@, v.path) is Ok
        } implies pull_fault(v, pull_content(v), pull_hash(v)) is None by {}
}

/// What is pushed of a file is what was read: its bytes, encoded, their hash and
/// its time, against the version that this side has seen.
pub proof fn law_pushed_files_are_what_was_read(
    path: &str,
    kind: &str,
    base_hash: &str,
    bytes: &Vec<u8>,
    mtime_ms: i64,
    r: PushFile,
)
    requires
        call_ensures(read_push_file, (path, kind, base_hash, bytes, mtime_ms), r),
    ensures
        r@.path == path@,
        r@.kind == kind@,
        r@.base_hash == base_hash@,
        r@.mtime_ms == mtime_ms,
        r@.hash == text::hex(digest::sha256(bytes@)),
        r@.content_base64 == digest::base64_encoded(bytes@),
{
}

/// A conflict is met only where both sides still list the path; a path that this
/// side lacks is pulled, and one that the server lacks is pushed against none.
pub proof fn law_conflicts_need_both_sides(v: RoundView, path: Seq<char>)
    ensures
        ({
            let (u, step) = conflict_begun(v, path);
            let here = v.local.dom().contains(path);
            let there = v.server.dom().contains(path);
            &&& step == ConflictStepView::Fetch <==> here && there
            &&& u.to_pull == (if here {
                v.to_pull
            } else {
                v.to_pull.push(path)
            })
            &&& u.to_push == (if here && !there {
                v.to_push.push((path, Seq::empty()))
            } else {
                v.to_push
            })
            &&& u.report == v.report
            &&& u.baseline == v.baseline
            &&& u.conflicts == v.conflicts
            &&& u.server == v.server
            &&& u.local == v.local
        }),
{
}

/// Of two versions in conflict the later keeps the path, this side's where
/// neither is. What the server sent is needed for either; where it did not come,
/// or cannot be read, that is told and nothing is done.
pub proof fn law_later_version_keeps_the_path(
    v: RoundView,
    path: Seq<char>,
    files: Vec<PullFile>,
    missing: Vec<(String, String)>,
    e: String,
)
    ensures
        ({
            let (u, step) = conflict_met(v, path, Ok((files, missing)));
            let came = missing@.len() == 0 && files@.len() > 0;
            let later = is_later(v.server[path], v.local[path]);
            let sent = digest::base64_decoded(files@[0]@.content_base64);
            &&& came && later ==> step == ConflictStepView::KeepServer(files@[0]@) && u == v
            &&& came && !later && sent is Ok ==> step == ConflictStepView::KeepLocal(files@[0]@.kind, sent->Ok_0)
                && u == v
            &&& !came || (!later && sent is Err) ==> {
                &&& step == ConflictStepView::Done
                &&& u.report.errors.len() == v.report.errors.len() + 1
                &&& u == (RoundView { report: u.report, ..v })
                &&& u.report == (sync::SyncReportView { errors: u.report.errors, ..v.report })
            }
        }),
        ({
            let (u, step) = conflict_met(v, path, Err(e));
            &&& step == ConflictStepView::Done
            &&& u.report.errors == v.report.errors.push(e@)
            &&& u == (RoundView { report: u.report, ..v })
        }),
{
}

/// A conflict that the server wins counts as pulled and merged only once the
/// local version lies in a copy and the server's is stored; the round then knows
/// the server's hash. In any other case the error is told and nothing else
/// changes.
pub proof fn law_server_wins_once_both_are_safe(v: RoundView, path: Seq<char>, f: PullFileView, o: ServerKept)
    ensures
        ({
            let u = server_kept(v, path, f, o);
            let done = o matches ServerKept::Copied(_, stored) && stored is None;
            &&& u.to_push == v.to_push
            &&& u.to_pull == v.to_pull
            &&& u.server == v.server
            &&& u.local == v.local
            &&& done ==> {
                &&& u.report.pulled == v.report.pulled.push(path)
                &&& u.report.merges.len() == v.report.merges.len() + 1
                &&& u.report.merges.drop_last() == v.report.merges
                &&& u.report.merges.last().path == path
                &&& u.report.merges.last().winner == "server"@
                &&& u.report.merges.last().loser_copy == o->Copied_0@
                &&& u.report.merges.last().winner_mtime_ms == f.mtime_ms
                &&& u.report.merges.last().loser_mtime_ms == v.local[path].mtime_ms
                &&& u.report.errors == v.report.errors
                &&& u.baseline == v.baseline.insert(path, f.hash)
            }
            &&& !done ==> {
                &&& u.report.errors.len() == v.report.errors.len() + 1
                &&& u.report == (sync::SyncReportView { errors: u.report.errors, ..v.report })
                &&& u.baseline == v.baseline
            }
        }),
{
    let u = server_kept(v, path, f, o);
    assert(u.report.merges.len() > v.report.merges.len() ==> u.report.merges.drop_last() =~= v.report.merges);
}

/// A conflict that this side wins is pushed against the server's hash; it counts
/// as merged once the server's version lies in a copy, else that is told.
pub proof fn law_local_win_is_pushed(v: RoundView, path: Seq<char>, saved: Result<String, String>)
    ensures
        ({
            let u = local_kept(v, path, saved);
            &&& u.to_push == v.to_push.push((path, v.server[path].hash))
            &&& u.to_pull == v.to_pull
            &&& u.baseline == v.baseline
            &&& u.report.pulled == v.report.pulled
            &&& u.report.pushed == v.report.pushed
            &&& saved matches Ok(copy) ==> {
                &&& u.report.errors == v.report.errors
                &&& u.report.merges.len() == v.report.merges.len() + 1
                &&& u.report.merges.drop_last() == v.report.merges
                &&& u.report.merges.last().path == path
                &&& u.report.merges.last().winner == "local"@
                &&& u.report.merges.last().loser_copy == copy@
                &&& u.report.merges.last().winner_mtime_ms == v.local[path].mtime_ms
                &&& u.report.merges.last().loser_mtime_ms == v.server[path].mtime_ms
            }
            &&& saved is Err ==> {
                &&& u.report.errors.len() == v.report.errors.len() + 1
                &&& u.report.merges == v.report.merges
            }
        }),
{
    let u = local_kept(v, path, saved);
    assert(u.report.merges.len() > v.report.merges.len() ==> u.report.merges.drop_last() =~= v.report.merges);
}

/// Pulls go in batches of at most 32 paths, in order and without a gap.
pub proof fn law_pulls_go_in_batches(core: &RoundCore, start: usize, r: Vec<String>)
    requires
        call_ensures(RoundCore::pull_batch, (core, start), r),
        start <= core@.to_pull.len(),
    ensures
        r@.len() == (if core@.to_pull.len() - start <= 32 {
            core@.to_pull.len() - start
        } else {
            32
        }),
        forall|i: int| 0 <= i < r@.len() ==> (#[trigger] r@[i])@ == core@.to_pull[start + i],
{
    let s = text::views(r@);
    assert(s.len() == r@.len());
    assert forall|i: int| 0 <= i < r@.len() implies (#[trigger] r@[i])@ == core@.to_pull[start + i] by {
        assert(s[i] == r@[i]@);
    }
}

/// Each file of a batch that was stored counts as pulled, and the round knows its
/// hash; each that was not is told as an error, and its path keeps the hash it
/// had. Nothing else about the round changes.
pub proof fn law_stored_files_count_as_pulled(
    v: RoundView,
    files: Seq<PullFileView>,
    stored: Seq<Option<Seq<char>>>,
    n: int,
    k: int,
    p: Seq<char>,
)
    requires
        0 <= n <= files.len(),
        stored.len() == files.len(),
        forall|i: int, j: int| 0 <= i < j < files.len() ==> (#[trigger] files[i]).path != (#[trigger] files[j]).path,
    ensures
        ({
            let u = after_stored(v, files, stored, n);
            &&& 0 <= k < n && stored[k] is None ==> {
                &&& u.baseline.dom().contains(files[k].path)
                &&& u.baseline[files[k].path] == files[k].hash
                &&& u.report.pulled.contains(files[k].path)
            }
            &&& 0 <= k < n && stored[k] is Some ==> u.report.errors.contains(stored[k]->0)
            &&& !(exists|i: int| 0 <= i < n && (#[trigger] files[i]).path == p && stored[i] is None) ==> {
                &&& u.baseline.dom().contains(p) <==> v.baseline.dom().contains(p)
                &&& u.baseline[p] == v.baseline[p]
                &&& u.report.pulled.contains(p) <==> v.report.pulled.contains(p)
            }
            &&& u.report.pulled.len() + u.report.errors.len() == v.report.pulled.len() + v.report.errors.len() + n
            &&& u.to_push == v.to_push
            &&& u.to_pull == v.to_pull
            &&& u.report.pushed == v.report.pushed
            &&& u.report.deleted == v.report.deleted
            &&& u.report.merges == v.report.merges
            &&& u.report.skipped == v.report.skipped
        }),
    decreases n,
{
    if n > 0 {
        law_stored_files_count_as_pulled(v, files, stored, n - 1, k, p);
        let u = after_stored(v, files, stored, n - 1);
        let w = after_stored(v, files, stored, n);
        let f = files[n - 1];
        assert(files[n - 1] == f);
        if stored[n - 1] is None {
            assert(w.report.pulled[u.report.pulled.len() as int] == f.path);
            if 0 <= k < n - 1 && stored[k] is None {
                let j = choose|j: int| 0 <= j < u.report.pulled.len() && u.report.pulled[j] == files[k].path;
                assert(w.report.pulled[j] == files[k].path);
            }
            if u.report.pulled.contains(p) {
                let j = choose|j: int| 0 <= j < u.report.pulled.len() && u.report.pulled[j] == p;
                assert(w.report.pulled[j] == p);
            }
            if w.report.pulled.contains(p) && p != f.path {
                let j = choose|j: int| 0 <= j < w.report.pulled.len() && w.report.pulled[j] == p;
                assert(u.report.pulled[j] == p);
            }
        } else {
            assert(w.report.errors[u.report.errors.len() as int] == stored[n - 1]->0);
            if 0 <= k < n - 1 && stored[k] is Some {
                let j = choose|j: int| 0 <= j < u.report.errors.len() && u.report.errors[j] == stored[k]->0;
                assert(w.report.errors[j] == stored[k]->0);
            }
        }
    }
}

/// Each path that the server could not send is told as an error with its reason.
pub proof fn law_missing_files_are_told(
    report: sync::SyncReportView,
    missing: Seq<(Seq<char>, Seq<char>)>,
    n: int,
)
    requires
        0 <= n <= missing.len(),
    ensures
        ({
            let r = after_missing(report, missing, n);
            &&& r.errors.len() == report.errors.len() + n
            &&& r.errors.take(report.errors.len() as int) == report.errors
            &&& forall|i: int|
                0 <= i < n ==> #[trigger] r.errors[report.errors.len() + i] == "拉取失败 "@ + missing[i].0 + ": "@
                    + missing[i].1
            &&& r == (sync::SyncReportView { errors: r.errors, ..report })
        }),
    decreases n,
{
    if n > 0 {
        law_missing_files_are_told(report, missing, n - 1);
        let a = after_missing(report, missing, n - 1);
        let b = after_missing(report, missing, n);
        let m = report.errors.len() as int;
        assert(b.errors.take(m) =~= a.errors.take(m));
        assert forall|i: int| 0 <= i < n implies #[trigger] b.errors[m + i] == "拉取失败 "@ + missing[i].0 + ": "@
            + missing[i].1 by {
            if i < n - 1 {
                assert(b.errors[m + i] == a.errors[m + i]);
            }
        }
    } else {
        assert(report.errors.take(report.errors.len() as int) =~= report.errors);
    }
}

pub proof fn lemma_batch_index(batch: Seq<PushFileView>, path: Seq<char>)
    ensures
        0 <= batch_index(batch, path) <= batch.len(),
        batch_index(batch, path) < batch.len() ==> batch[batch_index(batch, path)].path == path,
        forall|j: int| 0 <= j < batch_index(batch, path) ==> (#[trigger] batch[j]).path != path,
    decreases batch.len(),
{
    if batch.len() > 0 && batch[0].path != path {
        let rest = batch.drop_first();
        lemma_batch_index(rest, path);
        assert forall|j: int| 0 <= j < batch_index(batch, path) implies (#[trigger] batch[j]).path != path by {
            if j > 0 {
                assert(rest[j - 1] == batch[j]);
            }
        }
    }
}

/// What the server says of a push is believed as far as it goes. A push that was
/// refused is told as an error. One whose version the server now has counts as
/// pushed, and the round knows that hash; a copy that the server kept is told.
/// One that lost is left to be put right: nothing is noted yet. Answers about
/// files that were not pushed are passed over.
pub proof fn law_answers_to_pushes(v: RoundView, batch: Seq<PushFileView>, r: PushResultView, k: int)
    requires
        0 <= k < batch.len(),
        forall|i: int, j: int| 0 <= i < j < batch.len() ==> (#[trigger] batch[i]).path != (#[trigger] batch[j]).path,
    ensures
        ({
            let (u, lost) = push_settled(v, batch, r);
            let known = batch[k].path == r.path;
            let had = r.server_hash is None || r.server_hash->0 == batch[k].hash;
            &&& (forall|i: int| 0 <= i < batch.len() ==> (#[trigger] batch[i]).path != r.path) ==> u == v && !lost
            &&& known && !r.ok ==> {
                &&& !lost
                &&& u.report.errors.len() == v.report.errors.len() + 1
                &&& u.report == (sync::SyncReportView { errors: u.report.errors, ..v.report })
                &&& u == (RoundView { report: u.report, ..v })
            }
            &&& known && r.ok && had ==> {
                &&& !lost
                &&& u.report.pushed == v.report.pushed.push(r.path)
                &&& u.report.errors == v.report.errors
                &&& u.report.pulled == v.report.pulled
                &&& u.baseline == v.baseline.insert(r.path, batch[k].hash)
                &&& u.to_pull == v.to_pull
                &&& r.server_hash is Some && r.conflict_saved_as is Some ==> u.report.merges.len()
                    == v.report.merges.len() + 1 && u.report.merges.last().path == r.path
                    && u.report.merges.last().winner == "local"@ && u.report.merges.last().loser_copy
                    == r.conflict_saved_as->0
                &&& r.conflict_saved_as is None ==> u.report.merges == v.report.merges
            }
            &&& known && r.ok && !had ==> lost && u == v
        }),
{
    lemma_batch_index(batch, r.path);
    let i = batch_index(batch, r.path);
    if batch[k].path == r.path {
        if i < k {
            assert(batch[i].path != batch[k].path);
        }
        assert(i == k);
    }
}

/// A push that lost is put right by what the server has: it is stored here, counts
/// as pulled and merged, and the round knows its hash. Where that fails the error
/// is told, and nothing counts as pulled.
pub proof fn law_lost_pushes_are_put_right(
    v: RoundView,
    pf: PushFileView,
    copy: Option<Seq<char>>,
    files: Vec<PullFile>,
    missing: Vec<(String, String)>,
    stored: Option<Seq<char>>,
)
    ensures
        ({
            let came = missing@.len() == 0 && files@.len() > 0;
            let o = corrected(pf.path, correction_of(pf.path, Ok((files, missing))), stored);
            let u = after_correction(v, pf, copy, o);
            &&& o is Ok <==> came && stored is None
            &&& o is Ok ==> {
                &&& u.baseline == v.baseline.insert(pf.path, files@[0]@.hash)
                &&& u.report.pulled == v.report.pulled.push(pf.path)
                &&& u.report.merges.len() == v.report.merges.len() + 1
                &&& u.report.merges.last().path == pf.path
                &&& u.report.merges.last().winner == "server"@
                &&& u.report.merges.last().winner_mtime_ms == files@[0]@.mtime_ms
                &&& u.report.merges.last().loser_mtime_ms == pf.mtime_ms
                &&& copy matches Some(c) ==> u.report.merges.last().loser_copy == c
                &&& u.report.errors == v.report.errors
                &&& u.report.pushed == v.report.pushed
            }
            &&& o is Err ==> {
                &&& u.report.errors.len() == v.report.errors.len() + 1
                &&& u.report == (sync::SyncReportView { errors: u.report.errors, ..v.report })
                &&& u.baseline == v.baseline.insert(pf.path, pf.hash)
            }
        }),
{
}

/// A pulled file needs no more leave than this: to be written to its path in the
/// vault, with the content that was sent, once that has the hash that was sent and
/// is a note or an attachment.
pub proof fn law_only_checked_content_is_stored<W: Fn(&String, &FileWrite) -> Option<StoreFault>>(
    write: W,
    vault: Seq<char>,
    f: PullFileView,
    now_ms: i64,
)
    requires
        forall|a: &String, x: &FileWrite|
            {
                &&& Ok::<Seq<char>, fs_ops::FsErrorView>(a@) == fs_ops::safe_joined(vault, f.path)
                &&& x@.path == f.path
                &&& digest::base64_decoded(f.content_base64) == digest::bytes_ok(x@.bytes)
                &&& text::hex(digest::sha256(x@.bytes)) == f.hash
                &&& f.kind == "note"@ || f.kind == "asset"@
            } ==> #[trigger] call_requires(write, (a, x)),
    ensures
        store_leave(write, vault, f, now_ms),
{
}

} // verus!
