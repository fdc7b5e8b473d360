//! The phases of a sync round that talk to the server. What talks to it and to
//! the disk is handed in; each phase says what the round is then, whatever came
//! back.
use vstd::prelude::*;

use crate::exchange;
use crate::exchange::{corrective_file, ConflictStep, ConflictStepView, Fetched, ServerKept, PULL_BATCH, PUSH_BATCH};
use crate::round;
use crate::round::{DiskStep, DiskStepView, RoundCore, RoundView};
use crate::strmap::StrMap;
use crate::sync;
use crate::sync::{PullFile, PullFileView, PushFile, PushFileView, PushResult, PushResultView, SyncReport};
use crate::text;

verus! {

// ---------- conflicts ----------

/// Whether `saved` is what keeping the bytes as a conflict copy of the path
/// came to.
pub open spec fn copied<C: Fn(&String, &String, &Vec<u8>) -> Result<String, String>>(
    copy: C,
    path: Seq<char>,
    kind: Seq<char>,
    bytes: Seq<u8>,
    saved: Result<String, String>,
) -> bool {
    exists|p: String, k: String, b: Vec<u8>|
        {
            &&& #[trigger] call_ensures(copy, (&p, &k, &b), saved)
            &&& p@ == path
            &&& k@ == kind
            &&& b@ == bytes
        }
}

/// Whether `got` is what reading the local version came to.
pub open spec fn read_as<R: Fn(&String) -> Result<Vec<u8>, String>>(
    read: R,
    path: Seq<char>,
    got: Result<Vec<u8>, String>,
) -> bool {
    exists|p: String| #[trigger] call_ensures(read, (&p,), got) && p@ == path
}

/// Whether `stored` is what storing the server's version came to.
pub open spec fn stored_as<S: Fn(&PullFile) -> Option<String>>(
    store: S,
    f: PullFileView,
    stored: Option<String>,
) -> bool {
    exists|file: PullFile| #[trigger] call_ensures(store, (&file,), stored) && file@ == f
}

/// Whether `o` is what keeping the server's version came to: the local version
/// is read and kept as a copy before the server's is stored.
pub open spec fn kept_server<
    R: Fn(&String) -> Result<Vec<u8>, String>,
    C: Fn(&String, &String, &Vec<u8>) -> Result<String, String>,
    S: Fn(&PullFile) -> Option<String>,
>(read: R, copy: C, store: S, path: Seq<char>, kind: Seq<char>, f: PullFileView, o: ServerKept) -> bool {
    match o {
        ServerKept::Unread(e) => read_as(read, path, Err(e)),
        ServerKept::NoCopy(e) => exists|b: Vec<u8>| #[trigger]
            read_as(read, path, Ok(b)) && copied(copy, path, kind, b@, Err(e)),
        ServerKept::Copied(c, stored) => (exists|b: Vec<u8>| #[trigger]
            read_as(read, path, Ok(b)) && copied(copy, path, kind, b@, Ok(c))) && stored_as(
            store,
            f,
            stored,
        ),
    }
}

/// Whether `after` is the round once the server's version was kept.
pub open spec fn server_step<
    R: Fn(&String) -> Result<Vec<u8>, String>,
    C: Fn(&String, &String, &Vec<u8>) -> Result<String, String>,
    S: Fn(&PullFile) -> Option<String>,
>(
    read: R,
    copy: C,
    store: S,
    v: RoundView,
    path: Seq<char>,
    kind: Seq<char>,
    f: PullFileView,
    after: RoundView,
) -> bool {
    exists|o: ServerKept| #[trigger]
        kept_server(read, copy, store, path, kind, f, o) && after == exchange::server_kept(v, path, f, o)
}

/// Whether `after` is the round once this side's version was kept.
pub open spec fn local_step<C: Fn(&String, &String, &Vec<u8>) -> Result<String, String>>(
    copy: C,
    v: RoundView,
    path: Seq<char>,
    kind: Seq<char>,
    bytes: Seq<u8>,
    after: RoundView,
) -> bool {
    exists|saved: Result<String, String>| #[trigger]
        copied(copy, path, kind, bytes, saved) && after == exchange::local_kept(v, path, saved)
}

/// Whether `after` is the round once the step `step` was taken.
pub open spec fn step_taken<
    R: Fn(&String) -> Result<Vec<u8>, String>,
    C: Fn(&String, &String, &Vec<u8>) -> Result<String, String>,
    S: Fn(&PullFile) -> Option<String>,
>(
    read: R,
    copy: C,
    store: S,
    v: RoundView,
    path: Seq<char>,
    step: ConflictStepView,
    after: RoundView,
) -> bool {
    match step {
        ConflictStepView::Done => after == v,
        ConflictStepView::Fetch => false,
        ConflictStepView::KeepServer(f) => server_step(
            read,
            copy,
            store,
            v,
            path,
            v.local[path].kind,
            f,
            after,
        ),
        ConflictStepView::KeepLocal(kind, bytes) => local_step(copy, v, path, kind, bytes, after),
    }
}

/// Whether `got` is what asking for the paths came to.
pub open spec fn fetched_as<F: Fn(&Vec<String>) -> Fetched>(fetch: F, paths: Seq<Seq<char>>, got: Fetched) -> bool {
    exists|list: Vec<String>| #[trigger] call_ensures(fetch, (&list,), got) && text::views(list@) == paths
}

/// Whether `after` is the round once a conflict was settled.
pub open spec fn conflict_settled<
    F: Fn(&Vec<String>) -> Fetched,
    R: Fn(&String) -> Result<Vec<u8>, String>,
    C: Fn(&String, &String, &Vec<u8>) -> Result<String, String>,
    S: Fn(&PullFile) -> Option<String>,
>(fetch: F, read: R, copy: C, store: S, v: RoundView, path: Seq<char>, after: RoundView) -> bool {
    let begun = exchange::conflict_begun(v, path);
    if begun.1 is Done {
        after == begun.0
    } else {
        exists|got: Fetched| #[trigger]
            fetched_as(fetch, seq![path], got) && step_taken(
                read,
                copy,
                store,
                exchange::conflict_met(v, path, got).0,
                path,
                exchange::conflict_met(v, path, got).1,
                after,
            )
    }
}

/// Whether `after` is the round once the first `n` conflicts were settled.
pub open spec fn conflicts_settled<
    F: Fn(&Vec<String>) -> Fetched,
    R: Fn(&String) -> Result<Vec<u8>, String>,
    C: Fn(&String, &String, &Vec<u8>) -> Result<String, String>,
    S: Fn(&PullFile) -> Option<String>,
>(
    fetch: F,
    read: R,
    copy: C,
    store: S,
    v: RoundView,
    conflicts: Seq<(Seq<char>, Seq<char>)>,
    n: int,
    after: RoundView,
) -> bool
    decreases n,
{
    if n <= 0 {
        after == v
    } else {
        exists|mid: RoundView|
            {
                &&& conflicts_settled(fetch, read, copy, store, v, conflicts, n - 1, mid)
                &&& #[trigger] conflict_settled(
                    fetch,
                    read,
                    copy,
                    store,
                    mid,
                    conflicts[n - 1].0,
                    after,
                )
            }
    }
}

/// The calls that settling the conflict of a path may make. The server is asked
/// for that path alone. Where its version came and wins, the local version may
/// be read, what was read may be kept as a copy, and only once it is kept may
/// the server's version be stored. Where this side wins, the server's version
/// may be kept as a copy, and nothing is read or stored.
pub open spec fn path_leave<
    F: Fn(&Vec<String>) -> Fetched,
    R: Fn(&String) -> Result<Vec<u8>, String>,
    C: Fn(&String, &String, &Vec<u8>) -> Result<String, String>,
    S: Fn(&PullFile) -> Option<String>,
>(fetch: F, read: R, copy: C, store: S, path: Seq<char>, kind: Seq<char>, server_wins: bool) -> bool {
    &&& forall|l: &Vec<String>| text::views(l@) == seq![path] ==> #[trigger] call_requires(fetch, (l,))
    &&& forall|p: &String, got: Fetched|
        {
            &&& p@ == path
            &&& #[trigger] fetched_as(fetch, seq![path], got)
            &&& exchange::conflict_choice(server_wins, got) is KeepServer
        } ==> #[trigger] call_requires(read, (p,))
    &&& forall|p: &String, k: &String, b: &Vec<u8>, got: Fetched|
        {
            &&& p@ == path
            &&& #[trigger] fetched_as(fetch, seq![path], got)
            &&& may_copy(read, path, kind, exchange::conflict_choice(server_wins, got), k@, *b)
        } ==> #[trigger] call_requires(copy, (p, k, b))
    &&& forall|f: &PullFile, got: Fetched, b: Vec<u8>, c: String|
        {
            &&& #[trigger] fetched_as(fetch, seq![path], got)
            &&& exchange::conflict_choice(server_wins, got) == ConflictStepView::KeepServer(f@)
            &&& #[trigger] read_as(read, path, Ok(b))
            &&& #[trigger] copied(copy, path, kind, b@, Ok(c))
        } ==> #[trigger] call_requires(store, (f,))
}

/// Whether bytes may be kept as a conflict copy: the local version that was
/// read where the server wins, the server's version where this side does.
pub open spec fn may_copy<R: Fn(&String) -> Result<Vec<u8>, String>>(
    read: R,
    path: Seq<char>,
    kind: Seq<char>,
    step: ConflictStepView,
    copy_kind: Seq<char>,
    bytes: Vec<u8>,
) -> bool {
    match step {
        ConflictStepView::KeepServer(_) => copy_kind == kind && read_as(read, path, Ok(bytes)),
        ConflictStepView::KeepLocal(k, b) => copy_kind == k && bytes@ == b,
        _ => false,
    }
}

/// Whether a path is in conflict and both sides still have it.
pub open spec fn is_clash(v: RoundView, path: Seq<char>) -> bool {
    round::has_push(v.conflicts, path) && v.server.dom().contains(path) && v.local.dom().contains(path)
}

/// The calls that settling the conflicts of a round may make.
pub open spec fn conflict_leave<
    F: Fn(&Vec<String>) -> Fetched,
    R: Fn(&String) -> Result<Vec<u8>, String>,
    C: Fn(&String, &String, &Vec<u8>) -> Result<String, String>,
    S: Fn(&PullFile) -> Option<String>,
>(fetch: F, read: R, copy: C, store: S, v: RoundView) -> bool {
    forall|path: Seq<char>| #[trigger]
        is_clash(v, path) ==> path_leave(
            fetch,
            read,
            copy,
            store,
            path,
            v.local[path].kind,
            sync::newer(v.server[path].version(), v.local[path].version()),
        )
}

fn one_path(path: &str) -> (r: Vec<String>)
    ensures
        text::views(r@) == seq![path@],
{
    let mut list: Vec<String> = Vec::new();
    list.push(path.to_owned());
    assert(text::views(list@) =~= seq![path@]);
    list
}

fn keep_server<
    R: Fn(&String) -> Result<Vec<u8>, String>,
    C: Fn(&String, &String, &Vec<u8>) -> Result<String, String>,
    S: Fn(&PullFile) -> Option<String>,
>(read: &R, copy: &C, store: &S, path: &String, kind: &String, f: &PullFile) -> (r: ServerKept)
    requires
        call_requires(*read, (path,)),
        forall|b: &Vec<u8>| read_as(*read, path@, Ok(*b)) ==> #[trigger] call_requires(*copy, (path, kind, b)),
        forall|b: Vec<u8>, c: String| #[trigger]
            read_as(*read, path@, Ok(b)) && #[trigger] copied(*copy, path@, kind@, b@, Ok(c))
                ==> call_requires(*store, (f,)),
    ensures
        kept_server(*read, *copy, *store, path@, kind@, f@, r),
{
    let got = read(path);
    assert(call_ensures(*read, (path,), got));
    assert(read_as(*read, path@, got));
    match got {
        Err(e) => ServerKept::Unread(e),
        Ok(bytes) => {
            assert(read_as(*read, path@, Ok(bytes)));
            let saved = copy(path, kind, &bytes);
            assert(call_ensures(*copy, (path, kind, &bytes), saved));
            assert(copied(*copy, path@, kind@, bytes@, saved));
            match saved {
                Err(e) => ServerKept::NoCopy(e),
                Ok(c) => {
                    assert(copied(*copy, path@, kind@, bytes@, Ok(c)));
                    let stored = store(f);
                    assert(call_ensures(*store, (f,), stored));
                    assert(stored_as(*store, f@, stored));
                    ServerKept::Copied(c, stored)
                },
            }
        },
    }
}

impl RoundCore {
    /// Settles one conflict.
    fn settle_conflict<
        F: Fn(&Vec<String>) -> Fetched,
        R: Fn(&String) -> Result<Vec<u8>, String>,
        C: Fn(&String, &String, &Vec<u8>) -> Result<String, String>,
        S: Fn(&PullFile) -> Option<String>,
    >(&mut self, path: &String, fetch: &F, read: &R, copy: &C, store: &S)
        requires
            old(self).wf(),
            old(self)@.server.dom().contains(path@) && old(self)@.local.dom().contains(path@) ==> path_leave(
                *fetch,
                *read,
                *copy,
                *store,
                path@,
                old(self)@.local[path@].kind,
                sync::newer(old(self)@.server[path@].version(), old(self)@.local[path@].version()),
            ),
        ensures
            final(self).wf(),
            conflict_settled(*fetch, *read, *copy, *store, old(self)@, path@, final(self)@),
            final(self)@.server == old(self)@.server,
            final(self)@.local == old(self)@.local,
    {
        match self.begin_conflict(path.as_str()) {
            ConflictStep::Fetch => {},
            _ => {
                return;
            },
        }
        let ghost wins = sync::newer(self@.server[path@].version(), self@.local[path@].version());
        let list = one_path(path.as_str());
        let got = fetch(&list);
        assert(call_ensures(*fetch, (&list,), got));
        assert(fetched_as(*fetch, seq![path@], got));
        let step = self.meet_conflict(path.as_str(), &got);
        let ghost met = self@;
        let ghost next = step@;
        assert((met, next) == exchange::conflict_met(old(self)@, path@, got));
        assert(next == exchange::conflict_choice(wins, got));
        match step {
            ConflictStep::KeepServer(f) => {
                let kind: String = match self.local_map.get(path.as_str()) {
                    Some(lm) => lm.kind.clone(),
                    None => String::new(),
                };
                let o = keep_server(read, copy, store, path, &kind, &f);
                let ghost oo = o;
                self.note_server_kept(path.as_str(), &f, o);
                assert(kept_server(*read, *copy, *store, path@, met.local[path@].kind, f@, oo));
                assert(self@ == exchange::server_kept(met, path@, f@, oo));
            },
            ConflictStep::KeepLocal(kind, bytes) => {
                let saved = copy(path, &kind, &bytes);
                let ghost told = saved;
                assert(call_ensures(*copy, (path, &kind, &bytes), saved));
                assert(copied(*copy, path@, kind@, bytes@, told));
                self.note_local_kept(path.as_str(), saved);
                assert(self@ == exchange::local_kept(met, path@, told));
            },
            _ => {},
        }
        assert(step_taken(*read, *copy, *store, met, path@, next, self@));
        assert(fetched_as(*fetch, seq![path@], got));
    }

    /// Settles the conflicts. `fetch` asks the server for paths, `read` reads
    /// the local version, `copy` keeps a version as a conflict copy, and `store`
    /// stores the server's version.
    pub fn resolve_conflicts<
        F: Fn(&Vec<String>) -> Fetched,
        R: Fn(&String) -> Result<Vec<u8>, String>,
        C: Fn(&String, &String, &Vec<u8>) -> Result<String, String>,
        S: Fn(&PullFile) -> Option<String>,
    >(&mut self, fetch: F, read: R, copy: C, store: S)
        requires
            old(self).wf(),
            conflict_leave(fetch, read, copy, store, old(self)@),
        ensures
            final(self).wf(),
            conflicts_settled(
                fetch,
                read,
                copy,
                store,
                old(self)@,
                old(self)@.conflicts,
                old(self)@.conflicts.len() as int,
                final(self)@,
            ),
    {
        let ghost start = self@;
        let mut paths: Vec<String> = Vec::new();
        let mut i: usize = 0;
        while i < self.conflicts.len()
            invariant
                i <= self.conflicts.len(),
                self.wf(),
                self@ == start,
                paths@.len() == i,
                forall|j: int| 0 <= j < i ==> (#[trigger] paths@[j])@ == start.conflicts[j].0,
            decreases self.conflicts.len() - i,
        {
            assert(start.conflicts[i as int] == (self.conflicts@[i as int].0@, self.conflicts@[i as int].1@));
            paths.push(self.conflicts[i].0.clone());
            i = i + 1;
        }
        let mut k: usize = 0;
        while k < paths.len()
            invariant
                k <= paths.len(),
                paths@.len() == start.conflicts.len(),
                self.wf(),
                conflict_leave(fetch, read, copy, store, start),
                self@.server == start.server,
                self@.local == start.local,
                forall|j: int|
                    0 <= j < paths@.len() ==> (#[trigger] paths@[j])@ == start.conflicts[j].0,
                conflicts_settled(fetch, read, copy, store, start, start.conflicts, k as int, self@),
            decreases paths.len() - k,
        {
            let ghost mid = self@;
            assert(paths@[k as int]@ == start.conflicts[k as int].0);
            assert(round::has_push(start.conflicts, paths@[k as int]@));
            assert(is_clash(start, paths@[k as int]@) <==> start.server.dom().contains(paths@[k as int]@)
                && start.local.dom().contains(paths@[k as int]@));
            self.settle_conflict(&paths[k], &fetch, &read, &copy, &store);
            assert(conflict_settled(
                fetch,
                read,
                copy,
                store,
                mid,
                start.conflicts[(k + 1) - 1].0,
                self@,
            ));
            k = k + 1;
        }
    }
}

/// Whether the local version was read and kept as the conflict copy that the
/// merge names, and the server's version stored.
pub open spec fn local_version_kept<
    R: Fn(&String) -> Result<Vec<u8>, String>,
    C: Fn(&String, &String, &Vec<u8>) -> Result<String, String>,
    S: Fn(&PullFile) -> Option<String>,
>(
    read: R,
    copy: C,
    store: S,
    path: Seq<char>,
    kind: Seq<char>,
    f: PullFileView,
    bytes: Vec<u8>,
    name: String,
    m: sync::MergeEventView,
) -> bool {
    &&& read_as(read, path, Ok(bytes))
    &&& copied(copy, path, kind, bytes@, Ok(name))
    &&& name@ == m.loser_copy
    &&& stored_as(store, f, None)
}

/// Whether the server's version came and was kept as the conflict copy that the
/// merge names.
pub open spec fn server_version_kept<
    F: Fn(&Vec<String>) -> Fetched,
    C: Fn(&String, &String, &Vec<u8>) -> Result<String, String>,
>(
    fetch: F,
    copy: C,
    path: Seq<char>,
    got: Fetched,
    f: PullFileView,
    name: String,
    m: sync::MergeEventView,
) -> bool {
    &&& fetched_as(fetch, seq![path], got)
    &&& exchange::single_of(got) == Ok::<Option<PullFileView>, Seq<char>>(Some(f))
    &&& exchange::pull_content(f) is Ok
    &&& copied(copy, path, f.kind, exchange::pull_content(f)->Ok_0, Ok(name))
    &&& name@ == m.loser_copy
}

/// A conflict that is reported as merged has lost no version. Where the server
/// wins, the local version was kept as the copy that the report names, and the
/// server's was stored; where this side wins, the server's version was kept as
/// that copy, and this side's is to be pushed. That the copy comes before the
/// store is in `path_leave`: nothing may be stored until it is kept.
pub proof fn law_merges_keep_both_versions<
    F: Fn(&Vec<String>) -> Fetched,
    R: Fn(&String) -> Result<Vec<u8>, String>,
    C: Fn(&String, &String, &Vec<u8>) -> Result<String, String>,
    S: Fn(&PullFile) -> Option<String>,
>(fetch: F, read: R, copy: C, store: S, v: RoundView, path: Seq<char>, after: RoundView)
    requires
        conflict_settled(fetch, read, copy, store, v, path, after),
        after.report.merges != v.report.merges,
    ensures
        after.report.merges.len() == v.report.merges.len() + 1,
        after.report.merges.last().path == path,
        (exists|f: PullFileView, bytes: Vec<u8>, name: String| #[trigger]
            local_version_kept(
                read,
                copy,
                store,
                path,
                v.local[path].kind,
                f,
                bytes,
                name,
                after.report.merges.last(),
            ) && after.report.merges.last().winner == "server"@ && after.baseline[path] == f.hash) || (
        exists|got: Fetched, f: PullFileView, name: String| #[trigger]
            server_version_kept(fetch, copy, path, got, f, name, after.report.merges.last())
                && after.report.merges.last().winner == "local"@ && after.to_push.last() == (
                path,
                v.server[path].hash,
            )),
{
    let begun = exchange::conflict_begun(v, path);
    assert(begun.1 is Fetch);
    let got = choose|got: Fetched| #[trigger]
        fetched_as(fetch, seq![path], got) && step_taken(
            read,
            copy,
            store,
            exchange::conflict_met(v, path, got).0,
            path,
            exchange::conflict_met(v, path, got).1,
            after,
        );
    let met = exchange::conflict_met(v, path, got);
    let m = after.report.merges.last();
    match met.1 {
        ConflictStepView::KeepServer(f) => {
            let o = choose|o: ServerKept| #[trigger]
                kept_server(read, copy, store, path, v.local[path].kind, f, o) && after
                    == exchange::server_kept(v, path, f, o);
            match o {
                ServerKept::Copied(name, stored) => {
                    let bytes = choose|b: Vec<u8>| #[trigger]
                        read_as(read, path, Ok(b)) && copied(
                            copy,
                            path,
                            v.local[path].kind,
                            b@,
                            Ok(name),
                        );
                    assert(local_version_kept(
                        read,
                        copy,
                        store,
                        path,
                        v.local[path].kind,
                        f,
                        bytes,
                        name,
                        m,
                    ));
                },
                _ => {},
            }
        },
        ConflictStepView::KeepLocal(kind, bytes) => {
            let saved = choose|saved: Result<String, String>| #[trigger]
                copied(copy, path, kind, bytes, saved) && after == exchange::local_kept(v, path, saved);
            match saved {
                Ok(name) => {
                    let f = exchange::single_of(got)->Ok_0->0;
                    assert(server_version_kept(fetch, copy, path, got, f, name, m));
                },
                Err(_) => {},
            }
        },
        _ => {},
    }
}

// ---------- pulling ----------

/// Whether each entry of `stored` is what storing the file at its place came
/// to.
pub open spec fn all_stored<S: Fn(&PullFile) -> Option<String>>(
    store: S,
    files: Seq<PullFile>,
    stored: Seq<Option<String>>,
) -> bool {
    &&& stored.len() == files.len()
    &&& forall|i: int| 0 <= i < files.len() ==> #[trigger] stored_as(store, files[i]@, stored[i])
}

/// Whether `after` is the round once a batch of files has come and was stored.
pub open spec fn batch_stored<S: Fn(&PullFile) -> Option<String>>(
    store: S,
    v: RoundView,
    files: Seq<PullFile>,
    missing: Seq<(String, String)>,
    stored: Seq<Option<String>>,
    after: RoundView,
) -> bool {
    &&& all_stored(store, files, stored)
    &&& after == exchange::after_stored(
        RoundView {
            report: exchange::after_missing(v.report, text::views(missing), missing.len() as int),
            ..v
        },
        text::views(files),
        exchange::opt_views(stored),
        files.len() as int,
    )
}

/// Whether `after` is the round once a batch of paths was pulled.
pub open spec fn batch_pulled<F: Fn(&Vec<String>) -> Fetched, S: Fn(&PullFile) -> Option<String>>(
    fetch: F,
    store: S,
    v: RoundView,
    paths: Seq<Seq<char>>,
    after: RoundView,
) -> bool {
    exists|files: Vec<PullFile>, missing: Vec<(String, String)>, stored: Seq<Option<String>>|
        fetched_as(fetch, paths, Ok((files, missing))) && #[trigger] batch_stored(
            store,
            v,
            files@,
            missing@,
            stored,
            after,
        )
}

/// Whether `after` is the round once the first `n` batches were pulled.
pub open spec fn pulled_to<F: Fn(&Vec<String>) -> Fetched, S: Fn(&PullFile) -> Option<String>>(
    fetch: F,
    store: S,
    v: RoundView,
    n: int,
    after: RoundView,
) -> bool
    decreases n,
{
    if n <= 0 {
        after == v
    } else {
        exists|mid: RoundView|
            {
                &&& pulled_to(fetch, store, v, n - 1, mid)
                &&& #[trigger] batch_pulled(
                    fetch,
                    store,
                    mid,
                    exchange::batch_of(v.to_pull, PULL_BATCH * (n - 1), PULL_BATCH as int),
                    after,
                )
            }
    }
}

/// Whether the round ended at `after` because the server did not answer for
/// the batch behind the first `n`.
pub open spec fn pull_failed<F: Fn(&Vec<String>) -> Fetched, S: Fn(&PullFile) -> Option<String>>(
    fetch: F,
    store: S,
    v: RoundView,
    n: int,
    after: RoundView,
    e: String,
) -> bool {
    &&& 0 <= PULL_BATCH * n < v.to_pull.len()
    &&& pulled_to(fetch, store, v, n, after)
    &&& fetched_as(
        fetch,
        exchange::batch_of(v.to_pull, PULL_BATCH * n, PULL_BATCH as int),
        Err(e),
    )
}

/// Whether the round ended at `after` because the server did not answer for a
/// batch.
pub open spec fn pull_broke<F: Fn(&Vec<String>) -> Fetched, S: Fn(&PullFile) -> Option<String>>(
    fetch: F,
    store: S,
    v: RoundView,
    after: RoundView,
    e: String,
) -> bool {
    exists|n: int| #[trigger] pull_failed(fetch, store, v, n, after, e)
}

/// Whether `paths` is the batch to pull behind the first `n`.
pub open spec fn is_pull_batch(v: RoundView, n: int, paths: Seq<Seq<char>>) -> bool {
    &&& 0 <= PULL_BATCH * n < v.to_pull.len()
    &&& paths == exchange::batch_of(v.to_pull, PULL_BATCH * n, PULL_BATCH as int)
}

/// Whether a file is among those that came for the paths.
pub open spec fn came<F: Fn(&Vec<String>) -> Fetched>(fetch: F, paths: Seq<Seq<char>>, f: PullFile) -> bool {
    exists|files: Vec<PullFile>, missing: Vec<(String, String)>| #[trigger]
        fetched_as(fetch, paths, Ok((files, missing))) && files@.contains(f)
}

/// The calls that pulling may make. The server is asked for one batch after the
/// other, each once those before it came, and only what came for a batch may be
/// stored.
pub open spec fn pull_leave<F: Fn(&Vec<String>) -> Fetched, S: Fn(&PullFile) -> Option<String>>(
    fetch: F,
    store: S,
    v: RoundView,
) -> bool {
    &&& forall|l: &Vec<String>, n: int, mid: RoundView| #[trigger]
        is_pull_batch(v, n, text::views(l@)) && #[trigger] pulled_to(fetch, store, v, n, mid)
            ==> #[trigger] call_requires(fetch, (l,))
    &&& forall|f: &PullFile, n: int, paths: Seq<Seq<char>>| #[trigger]
        is_pull_batch(v, n, paths) && came(fetch, paths, *f) ==> #[trigger] call_requires(store, (f,))
}

/// How many batches of the given size a list has.
pub open spec fn batches(len: nat, size: int) -> int {
    (len + size - 1) / size
}

fn store_all<S: Fn(&PullFile) -> Option<String>>(store: &S, files: &Vec<PullFile>) -> (r: Vec<Option<String>>)
    requires
        forall|f: &PullFile| files@.contains(*f) ==> #[trigger] call_requires(*store, (f,)),
    ensures
        all_stored(*store, files@, r@),
{
    let mut out: Vec<Option<String>> = Vec::new();
    let mut i: usize = 0;
    while i < files.len()
        invariant
            i <= files.len(),
            out@.len() == i,
            forall|f: &PullFile| files@.contains(*f) ==> #[trigger] call_requires(*store, (f,)),
            forall|j: int| 0 <= j < i ==> #[trigger] stored_as(*store, files@[j]@, out@[j]),
        decreases files.len() - i,
    {
        assert(files@.contains(files@[i as int]));
        let got = store(&files[i]);
        assert(call_ensures(*store, (&files@[i as int],), got));
        assert(stored_as(*store, files@[i as int]@, got));
        out.push(got);
        i = i + 1;
    }
    out
}

impl RoundCore {
    /// Pulls the paths that are to be pulled, in batches. Where the server does
    /// not answer, the round ends.
    pub fn pull_phase<F: Fn(&Vec<String>) -> Fetched, S: Fn(&PullFile) -> Option<String>>(
        &mut self,
        fetch: F,
        store: S,
    ) -> (r: Result<(), String>)
        requires
            old(self).wf(),
            pull_leave(fetch, store, old(self)@),
        ensures
            final(self).wf(),
            match r {
                Ok(_) => pulled_to(
                    fetch,
                    store,
                    old(self)@,
                    batches(old(self)@.to_pull.len(), PULL_BATCH as int),
                    final(self)@,
                ),
                Err(e) => pull_broke(fetch, store, old(self)@, final(self)@, e),
            },
    {
        let ghost begin = self@;
        let total: usize = self.to_pull.len();
        let mut start: usize = 0;
        let mut n: usize = 0;
        while start < total
            invariant
                start <= total,
                begin == old(self)@,
                total == begin.to_pull.len(),
                self.wf(),
                self@.to_pull == begin.to_pull,
                self.to_pull@.len() == total,
                n <= start,
                start == PULL_BATCH * n || start == total,
                start < total ==> start == PULL_BATCH * n,
                start == total ==> n == batches(begin.to_pull.len(), PULL_BATCH as int),
                pull_leave(fetch, store, begin),
                pulled_to(fetch, store, begin, n as int, self@),
            decreases total - start,
        {
            let ghost mid = self@;
            let ghost part = exchange::batch_of(begin.to_pull, PULL_BATCH * n, PULL_BATCH as int);
            let list = self.pull_batch(start);
            assert(is_pull_batch(begin, n as int, text::views(list@)));
            let got = fetch(&list);
            assert(call_ensures(fetch, (&list,), got));
            assert(fetched_as(fetch, part, got));
            match got {
                Err(e) => {
                    assert(pull_failed(fetch, store, begin, n as int, self@, e));
                    assert(pull_broke(fetch, store, begin, self@, e));
                    return Err(e);
                },
                Ok((files, missing)) => {
                    assert(fetched_as(fetch, part, Ok((files, missing))));
                    assert forall|f: &PullFile| files@.contains(*f) implies #[trigger] call_requires(
                        store,
                        (f,),
                    ) by {
                        assert(came(fetch, part, *f));
                        assert(is_pull_batch(begin, n as int, part));
                    }
                    let stored = store_all(&store, &files);
                    self.note_pulled(&files, &missing, &stored);
                    proof {
                        exchange::lemma_stored_keeps_lists(
                            RoundView {
                                report: exchange::after_missing(
                                    mid.report,
                                    text::views(missing@),
                                    missing@.len() as int,
                                ),
                                ..mid
                            },
                            text::views(files@),
                            exchange::opt_views(stored@),
                            files@.len() as int,
                        );
                    }
                    assert(batch_stored(store, mid, files@, missing@, stored@, self@));
                    assert(batch_pulled(fetch, store, mid, part, self@));
                },
            }
            assert(batch_pulled(
                fetch,
                store,
                mid,
                exchange::batch_of(begin.to_pull, PULL_BATCH * ((n + 1) - 1), PULL_BATCH as int),
                self@,
            ));
            if PULL_BATCH <= total - start {
                start = start + PULL_BATCH;
            } else {
                start = total;
            }
            n = n + 1;
        }
        Ok(())
    }
}

// ---------- pushing ----------

/// Whether `after` and `batch` are what preparing the first `n` files comes to.
pub open spec fn batch_prepared<R: Fn(&String) -> Option<(Vec<u8>, i64)>>(
    read: R,
    v: RoundView,
    items: Seq<(Seq<char>, Seq<char>)>,
    n: int,
    after: RoundView,
    batch: Seq<PushFileView>,
) -> bool
    decreases n,
{
    if n <= 0 {
        after == v && batch.len() == 0
    } else {
        exists|mid: RoundView, made: Option<PushFileView>|
            {
                &&& #[trigger] exchange::one_prepared(read, mid, items[n - 1], after, made)
                &&& match made {
                    None => batch_prepared(read, v, items, n - 1, mid, batch),
                    Some(f) => batch.len() > 0 && batch.last() == f && batch_prepared(
                        read,
                        v,
                        items,
                        n - 1,
                        mid,
                        batch.drop_last(),
                    ),
                }
            }
    }
}

/// Whether `after` is the round once the version that a push lost against was
/// pulled, or could not be.
pub open spec fn correction_made<F: Fn(&Vec<String>) -> Fetched, S: Fn(&PullFile) -> Option<String>>(
    fetch: F,
    store: S,
    v: RoundView,
    pf: PushFileView,
    copy: Option<Seq<char>>,
    after: RoundView,
) -> bool {
    exists|got: Fetched, stored: Option<String>|
        fetched_as(fetch, seq![pf.path], got) && #[trigger] correction_stored(
            store,
            v,
            pf,
            copy,
            exchange::correction_of(pf.path, got),
            stored,
            after,
        )
}

/// Whether `after` is the round once the version that a push lost against came
/// and was stored.
pub open spec fn correction_stored<S: Fn(&PullFile) -> Option<String>>(
    store: S,
    v: RoundView,
    pf: PushFileView,
    copy: Option<Seq<char>>,
    file: Result<PullFileView, Seq<char>>,
    stored: Option<String>,
    after: RoundView,
) -> bool {
    &&& file is Ok ==> stored_as(store, file->Ok_0, stored)
    &&& after == exchange::after_correction(
        v,
        pf,
        copy,
        exchange::corrected(pf.path, file, text::opt_view(stored)),
    )
}

/// Whether `after` is the round once the server's answer for one file was
/// taken.
pub open spec fn answer_taken<F: Fn(&Vec<String>) -> Fetched, S: Fn(&PullFile) -> Option<String>>(
    fetch: F,
    store: S,
    v: RoundView,
    batch: Seq<PushFileView>,
    r: PushResultView,
    after: RoundView,
) -> bool {
    let settled = exchange::push_settled(v, batch, r);
    if settled.1 {
        correction_made(
            fetch,
            store,
            settled.0,
            batch[exchange::batch_index(batch, r.path)],
            r.conflict_saved_as,
            after,
        )
    } else {
        after == settled.0
    }
}

/// Whether `after` is the round once the first `n` answers were taken.
pub open spec fn answers_taken<F: Fn(&Vec<String>) -> Fetched, S: Fn(&PullFile) -> Option<String>>(
    fetch: F,
    store: S,
    v: RoundView,
    batch: Seq<PushFileView>,
    results: Seq<PushResultView>,
    n: int,
    after: RoundView,
) -> bool
    decreases n,
{
    if n <= 0 {
        after == v
    } else {
        exists|mid: RoundView|
            {
                &&& answers_taken(fetch, store, v, batch, results, n - 1, mid)
                &&& #[trigger] answer_taken(fetch, store, mid, batch, results[n - 1], after)
            }
    }
}

/// Whether `got` is what pushing the files came to.
pub open spec fn pushed_as<P: Fn(&Vec<PushFile>) -> Result<Vec<PushResult>, String>>(
    push: P,
    batch: Seq<PushFileView>,
    got: Result<Vec<PushResult>, String>,
) -> bool {
    exists|list: Vec<PushFile>| #[trigger] call_ensures(push, (&list,), got) && text::views(list@) == batch
}

/// Whether `after` is the round once a prepared batch was pushed; an empty one
/// is not sent.
pub open spec fn batch_sent<
    P: Fn(&Vec<PushFile>) -> Result<Vec<PushResult>, String>,
    F: Fn(&Vec<String>) -> Fetched,
    S: Fn(&PullFile) -> Option<String>,
>(push: P, fetch: F, store: S, v: RoundView, batch: Seq<PushFileView>, after: RoundView) -> bool {
    if batch.len() == 0 {
        after == v
    } else {
        exists|results: Vec<PushResult>| #[trigger]
            pushed_as(push, batch, Ok(results)) && answers_taken(
                fetch,
                store,
                v,
                batch,
                text::views(results@),
                results@.len() as int,
                after,
            )
    }
}

/// Whether `after` is the round once the given files were pushed.
pub open spec fn batch_pushed<
    R: Fn(&String) -> Option<(Vec<u8>, i64)>,
    P: Fn(&Vec<PushFile>) -> Result<Vec<PushResult>, String>,
    F: Fn(&Vec<String>) -> Fetched,
    S: Fn(&PullFile) -> Option<String>,
>(
    read: R,
    push: P,
    fetch: F,
    store: S,
    v: RoundView,
    items: Seq<(Seq<char>, Seq<char>)>,
    after: RoundView,
) -> bool {
    exists|mid: RoundView, batch: Seq<PushFileView>|
        batch_prepared(read, v, items, items.len() as int, mid, batch) && #[trigger] batch_sent(
            push,
            fetch,
            store,
            mid,
            batch,
            after,
        )
}

/// Whether `after` is the round once the first `n` batches were pushed. The
/// list of what is to be pushed is empty from the start.
pub open spec fn pushed_to<
    R: Fn(&String) -> Option<(Vec<u8>, i64)>,
    P: Fn(&Vec<PushFile>) -> Result<Vec<PushResult>, String>,
    F: Fn(&Vec<String>) -> Fetched,
    S: Fn(&PullFile) -> Option<String>,
>(
    read: R,
    push: P,
    fetch: F,
    store: S,
    v: RoundView,
    n: int,
    after: RoundView,
) -> bool
    decreases n,
{
    if n <= 0 {
        after == (RoundView { to_push: Seq::empty(), ..v })
    } else {
        exists|mid: RoundView|
            {
                &&& pushed_to(read, push, fetch, store, v, n - 1, mid)
                &&& #[trigger] batch_pushed(
                    read,
                    push,
                    fetch,
                    store,
                    mid,
                    exchange::batch_of(v.to_push, PUSH_BATCH * (n - 1), PUSH_BATCH as int),
                    after,
                )
            }
    }
}

/// The calls that correcting a push of the path may make: the server is asked
/// for that path alone, and only what came for it may be stored.
pub open spec fn correction_leave<F: Fn(&Vec<String>) -> Fetched, S: Fn(&PullFile) -> Option<String>>(
    fetch: F,
    store: S,
    path: Seq<char>,
) -> bool {
    &&& forall|l: &Vec<String>| text::views(l@) == seq![path] ==> #[trigger] call_requires(fetch, (l,))
    &&& forall|f: &PullFile, got: Fetched| #[trigger]
        fetched_as(fetch, seq![path], got) && exchange::correction_of(path, got) == Ok::<
            PullFileView,
            Seq<char>,
        >(f@) ==> #[trigger] call_requires(store, (f,))
}

/// The calls that taking the answers for a batch may make: a path is corrected
/// only where the server says that it holds another version than was sent.
pub open spec fn answers_leave<F: Fn(&Vec<String>) -> Fetched, S: Fn(&PullFile) -> Option<String>>(
    fetch: F,
    store: S,
    batch: Seq<PushFileView>,
    results: Seq<PushResultView>,
) -> bool {
    forall|i: int|
        0 <= i < results.len() && exchange::push_lost(batch, #[trigger] results[i]) ==> correction_leave(
            fetch,
            store,
            results[i].path,
        )
}

/// Whether `batch` is what is sent behind the first `n` batches, with the round
/// being `mid` before it was made ready and `ready` then.
pub open spec fn push_ready<
    R: Fn(&String) -> Option<(Vec<u8>, i64)>,
    P: Fn(&Vec<PushFile>) -> Result<Vec<PushResult>, String>,
    F: Fn(&Vec<String>) -> Fetched,
    S: Fn(&PullFile) -> Option<String>,
>(
    read: R,
    push: P,
    fetch: F,
    store: S,
    v: RoundView,
    n: int,
    mid: RoundView,
    batch: Seq<PushFileView>,
    ready: RoundView,
) -> bool {
    let items = exchange::batch_of(v.to_push, PUSH_BATCH * n, PUSH_BATCH as int);
    &&& 0 <= PUSH_BATCH * n < v.to_push.len()
    &&& pushed_to(read, push, fetch, store, v, n, mid)
    &&& batch_prepared(read, mid, items, items.len() as int, ready, batch)
    &&& batch.len() > 0
}

/// The calls that pushing may make. Only files that are to be pushed, and that
/// this side has, may be read. Only a batch that was made ready of them may be
/// sent, once those before it were. What the server holds is fetched and stored
/// only where a push lost against it.
pub open spec fn push_leave<
    R: Fn(&String) -> Option<(Vec<u8>, i64)>,
    P: Fn(&Vec<PushFile>) -> Result<Vec<PushResult>, String>,
    F: Fn(&Vec<String>) -> Fetched,
    S: Fn(&PullFile) -> Option<String>,
>(read: R, push: P, fetch: F, store: S, v: RoundView) -> bool {
    &&& forall|p: &String|
        round::has_push(v.to_push, p@) && v.local.dom().contains(p@) ==> #[trigger] call_requires(read, (p,))
    &&& forall|b: &Vec<PushFile>, n: int, mid: RoundView, ready: RoundView| #[trigger]
        push_ready(read, push, fetch, store, v, n, mid, text::views(b@), ready)
            ==> #[trigger] call_requires(push, (b,))
    &&& forall|n: int, mid: RoundView, batch: Seq<PushFileView>, ready: RoundView, results: Vec<PushResult>|
        #[trigger] push_ready(read, push, fetch, store, v, n, mid, batch, ready) && #[trigger] pushed_as(
            push,
            batch,
            Ok(results),
        ) ==> answers_leave(fetch, store, batch, text::views(results@))
}

/// Whether the round ended at `after` because the server did not answer for
/// the batch behind the first `n`.
pub open spec fn push_failed<
    R: Fn(&String) -> Option<(Vec<u8>, i64)>,
    P: Fn(&Vec<PushFile>) -> Result<Vec<PushResult>, String>,
    F: Fn(&Vec<String>) -> Fetched,
    S: Fn(&PullFile) -> Option<String>,
>(
    read: R,
    push: P,
    fetch: F,
    store: S,
    v: RoundView,
    n: int,
    mid: RoundView,
    batch: Seq<PushFileView>,
    after: RoundView,
    e: String,
) -> bool {
    &&& push_ready(read, push, fetch, store, v, n, mid, batch, after)
    &&& pushed_as(push, batch, Err(e))
}

/// Whether the round ended at `after` because the server did not answer for a
/// batch.
pub open spec fn push_broke<
    R: Fn(&String) -> Option<(Vec<u8>, i64)>,
    P: Fn(&Vec<PushFile>) -> Result<Vec<PushResult>, String>,
    F: Fn(&Vec<String>) -> Fetched,
    S: Fn(&PullFile) -> Option<String>,
>(read: R, push: P, fetch: F, store: S, v: RoundView, after: RoundView, e: String) -> bool {
    exists|n: int, mid: RoundView, batch: Seq<PushFileView>| #[trigger]
        push_failed(read, push, fetch, store, v, n, mid, batch, after, e)
}

impl RoundCore {
    /// Pulls the version that a push lost against, so that both sides have it.
    fn corrective_pull<F: Fn(&Vec<String>) -> Fetched, S: Fn(&PullFile) -> Option<String>>(
        &mut self,
        pf: &PushFile,
        copy: &Option<String>,
        fetch: &F,
        store: &S,
    )
        requires
            old(self).wf(),
            correction_leave(*fetch, *store, pf@.path),
        ensures
            final(self).wf(),
            correction_made(*fetch, *store, old(self)@, pf@, text::opt_view(*copy), final(self)@),
    {
        let ghost before = self@;
        let list = one_path(pf.path.as_str());
        let got = fetch(&list);
        assert(call_ensures(*fetch, (&list,), got));
        assert(fetched_as(*fetch, seq![pf@.path], got));
        let file = corrective_file(pf.path.as_str(), &got);
        let stored: Option<String> = match &file {
            Ok(f) => {
                let s = store(f);
                assert(call_ensures(*store, (f,), s));
                assert(stored_as(*store, f@, s));
                s
            },
            Err(_) => None,
        };
        self.note_corrected(pf, copy, &file, &stored);
        assert(correction_stored(
            *store,
            before,
            pf@,
            text::opt_view(*copy),
            exchange::correction_of(pf@.path, got),
            stored,
            self@,
        ));
    }

    fn take_answer<F: Fn(&Vec<String>) -> Fetched, S: Fn(&PullFile) -> Option<String>>(
        &mut self,
        batch: &Vec<PushFile>,
        r: &PushResult,
        fetch: &F,
        store: &S,
    )
        requires
            old(self).wf(),
            exchange::push_lost(text::views(batch@), r@) ==> correction_leave(*fetch, *store, r@.path),
        ensures
            final(self).wf(),
            final(self)@.local == old(self)@.local,
            answer_taken(*fetch, *store, old(self)@, text::views(batch@), r@, final(self)@),
    {
        let lost = self.note_pushed(batch, r);
        if let Some(k) = lost {
            assert(text::views(batch@)[k as int] == batch@[k as int]@);
            self.corrective_pull(&batch[k], &r.conflict_saved_as, fetch, store);
        }
    }

    fn take_answers<F: Fn(&Vec<String>) -> Fetched, S: Fn(&PullFile) -> Option<String>>(
        &mut self,
        batch: &Vec<PushFile>,
        results: &Vec<PushResult>,
        fetch: &F,
        store: &S,
    )
        requires
            old(self).wf(),
            answers_leave(*fetch, *store, text::views(batch@), text::views(results@)),
        ensures
            final(self).wf(),
            final(self)@.local == old(self)@.local,
            answers_taken(
                *fetch,
                *store,
                old(self)@,
                text::views(batch@),
                text::views(results@),
                results@.len() as int,
                final(self)@,
            ),
    {
        let ghost begin = self@;
        let ghost b = text::views(batch@);
        let ghost rs = text::views(results@);
        let mut i: usize = 0;
        while i < results.len()
            invariant
                i <= results.len(),
                b == text::views(batch@),
                rs == text::views(results@),
                self.wf(),
                answers_leave(*fetch, *store, b, rs),
                self@.local == begin.local,
                answers_taken(*fetch, *store, begin, b, rs, i as int, self@),
            decreases results.len() - i,
        {
            let ghost mid = self@;
            assert(rs[i as int] == results@[i as int]@);
            self.take_answer(batch, &results[i], fetch, store);
            assert(answer_taken(*fetch, *store, mid, b, rs[(i + 1) - 1], self@));
            i = i + 1;
        }
    }

    fn prepare_batch<R: Fn(&String) -> Option<(Vec<u8>, i64)>>(
        &mut self,
        list: &Vec<(String, String)>,
        start: usize,
        end: usize,
        read: &R,
    ) -> (r: Vec<PushFile>)
        requires
            old(self).wf(),
            start <= end <= list@.len(),
            forall|p: &String|
                round::has_push(text::views(list@), p@) && old(self)@.local.dom().contains(p@)
                    ==> #[trigger] call_requires(*read, (p,)),
            exchange::reads_fit(*read),
        ensures
            final(self).wf(),
            final(self)@.local == old(self)@.local,
            batch_prepared(
                *read,
                old(self)@,
                text::views(list@).subrange(start as int, end as int),
                end - start,
                final(self)@,
                text::views(r@),
            ),
    {
        broadcast use text::lemma_views_push;
        let ghost begin = self@;
        let ghost items = text::views(list@).subrange(start as int, end as int);
        let mut out: Vec<PushFile> = Vec::new();
        let mut i: usize = start;
        while i < end
            invariant
                start <= i <= end <= list@.len(),
                items == text::views(list@).subrange(start as int, end as int),
                self.wf(),
                self@.local == begin.local,
                forall|p: &String|
                    round::has_push(text::views(list@), p@) && begin.local.dom().contains(p@)
                        ==> #[trigger] call_requires(*read, (p,)),
                exchange::reads_fit(*read),
                batch_prepared(*read, begin, items, i - start, self@, text::views(out@)),
            decreases end - i,
        {
            broadcast use text::lemma_views_push;
            let ghost mid = self@;
            let ghost was = text::views(out@);
            assert(items[i - start] == (list@[i as int].0@, list@[i as int].1@));
            assert(text::views(list@)[i as int].0 == list@[i as int].0@);
            let made = self.prepare_push(&list[i].0, list[i].1.as_str(), read);
            let ghost m = exchange::push_view(made);
            assert(exchange::one_prepared(*read, mid, items[(i + 1 - start) - 1], self@, m));
            if let Some(f) = made {
                out.push(f);
                assert(text::views(out@).drop_last() =~= was);
            }
            assert(batch_prepared(*read, begin, items, i + 1 - start, self@, text::views(out@)));
            i = i + 1;
        }
        out
    }

    /// Pushes the paths that are to be pushed, in batches. `read` reads a file,
    /// with its modification time, and `push` sends a batch. Where the server
    /// holds a newer version than the one that was sent, that one is pulled.
    /// Where the server does not answer, the round ends.
    pub fn push_phase<
        R: Fn(&String) -> Option<(Vec<u8>, i64)>,
        P: Fn(&Vec<PushFile>) -> Result<Vec<PushResult>, String>,
        F: Fn(&Vec<String>) -> Fetched,
        S: Fn(&PullFile) -> Option<String>,
    >(&mut self, read: R, push: P, fetch: F, store: S) -> (r: Result<(), String>)
        requires
            old(self).wf(),
            push_leave(read, push, fetch, store, old(self)@),
            exchange::reads_fit(read),
        ensures
            final(self).wf(),
            match r {
                Ok(_) => pushed_to(
                    read,
                    push,
                    fetch,
                    store,
                    old(self)@,
                    batches(old(self)@.to_push.len(), PUSH_BATCH as int),
                    final(self)@,
                ),
                Err(e) => push_broke(read, push, fetch, store, old(self)@, final(self)@, e),
            },
    {
        let ghost begin = self@;
        let list = self.take_pushes();
        let total: usize = list.len();
        let mut start: usize = 0;
        let mut n: usize = 0;
        while start < total
            invariant
                start <= total,
                begin == old(self)@,
                total == begin.to_push.len(),
                text::views(list@) == begin.to_push,
                list@.len() == total,
                self.wf(),
                n <= start,
                start < total ==> start == PUSH_BATCH * n,
                start == total ==> n == batches(begin.to_push.len(), PUSH_BATCH as int),
                push_leave(read, push, fetch, store, begin),
                exchange::reads_fit(read),
                self@.local == begin.local,
                pushed_to(read, push, fetch, store, begin, n as int, self@),
            decreases total - start,
        {
            let ghost mid = self@;
            let ghost items = exchange::batch_of(begin.to_push, PUSH_BATCH * n, PUSH_BATCH as int);
            let end: usize = if PUSH_BATCH <= total - start {
                start + PUSH_BATCH
            } else {
                total
            };
            let batch = self.prepare_batch(&list, start, end, &read);
            let ghost ready = self@;
            let ghost b = text::views(batch@);
            assert(items == text::views(list@).subrange(start as int, end as int));
            assert(batch_prepared(read, mid, items, items.len() as int, ready, b));
            if batch.len() > 0 {
                assert(push_ready(read, push, fetch, store, begin, n as int, mid, b, ready));
                let got = push(&batch);
                assert(call_ensures(push, (&batch,), got));
                assert(pushed_as(push, b, got));
                match got {
                    Err(e) => {
                        assert(push_failed(
                            read,
                            push,
                            fetch,
                            store,
                            begin,
                            n as int,
                            mid,
                            b,
                            self@,
                            e,
                        ));
                        assert(push_broke(read, push, fetch, store, begin, self@, e));
                        return Err(e);
                    },
                    Ok(results) => {
                        assert(pushed_as(push, b, Ok(results)));
                        self.take_answers(&batch, &results, &fetch, &store);
                    },
                }
            }
            assert(batch_sent(push, fetch, store, ready, b, self@));
            assert(batch_pushed(
                read,
                push,
                fetch,
                store,
                mid,
                exchange::batch_of(begin.to_push, PUSH_BATCH * ((n + 1) - 1), PUSH_BATCH as int),
                self@,
            ));
            start = end;
            n = n + 1;
        }
        Ok(())
    }
}

// ---------- a whole round ----------

/// What a round comes to: the baseline for the next one and the report, or why
/// it ended.
pub type RoundEnd = Result<(StrMap<String>, SyncReport), String>;

/// Whether `fault` is what a step on disk came to.
pub open spec fn acted<A: Fn(&DiskStep) -> Option<String>>(
    act: A,
    step: DiskStepView,
    fault: Option<String>,
) -> bool {
    exists|s: DiskStep| #[trigger] call_ensures(act, (&s,), fault) && s@ == step
}

/// Whether the first `n` steps on disk were taken without a fault.
pub open spec fn acted_to<A: Fn(&DiskStep) -> Option<String>>(act: A, steps: Seq<DiskStepView>, n: int) -> bool {
    forall|i: int| 0 <= i < n ==> acted(act, #[trigger] steps[i], None)
}

/// Whether the step on disk behind the first `n` failed for the reason `e`.
pub open spec fn act_failed<A: Fn(&DiskStep) -> Option<String>>(
    act: A,
    steps: Seq<DiskStepView>,
    n: int,
    e: String,
) -> bool {
    &&& 0 <= n < steps.len()
    &&& acted_to(act, steps, n)
    &&& acted(act, steps[n], Some(e))
}

/// Whether a step on disk failed for the reason `e`; those behind it are not
/// taken.
pub open spec fn act_broke<A: Fn(&DiskStep) -> Option<String>>(act: A, steps: Seq<DiskStepView>, e: String) -> bool {
    exists|n: int| #[trigger] act_failed(act, steps, n, e)
}

/// The steps on disk that may be taken: each in its turn, once those before it
/// were taken without a fault.
pub open spec fn act_leave<A: Fn(&DiskStep) -> Option<String>>(act: A, steps: Seq<DiskStepView>) -> bool {
    forall|s: &DiskStep, i: int|
        {
            &&& 0 <= i < steps.len()
            &&& s@ == #[trigger] steps[i]
            &&& acted_to(act, steps, i)
        } ==> #[trigger] call_requires(act, (s,))
}

/// Takes steps on disk in order, up to the first that fails.
fn take_steps<A: Fn(&DiskStep) -> Option<String>>(steps: &Vec<DiskStep>, act: &A) -> (r: Option<String>)
    requires
        act_leave(*act, text::views(steps@)),
    ensures
        match r {
            None => acted_to(*act, text::views(steps@), steps@.len() as int),
            Some(e) => act_broke(*act, text::views(steps@), e),
        },
{
    let ghost all = text::views(steps@);
    let mut i: usize = 0;
    while i < steps.len()
        invariant
            i <= steps.len(),
            all == text::views(steps@),
            act_leave(*act, all),
            acted_to(*act, all, i as int),
        decreases steps.len() - i,
    {
        assert(all[i as int] == steps@[i as int]@);
        let fault = act(&steps[i]);
        assert(call_ensures(*act, (&steps@[i as int],), fault));
        assert(acted(*act, all[i as int], fault));
        if let Some(e) = fault {
            assert(act_failed(*act, all, i as int, e));
            return Some(e);
        }
        i = i + 1;
    }
    None
}

/// Whether `got` is what asking the server to delete the paths came to.
pub open spec fn deleted_as<X: Fn(&Vec<String>) -> Result<Vec<PushResult>, String>>(
    delete: X,
    paths: Seq<Seq<char>>,
    got: Result<Vec<PushResult>, String>,
) -> bool {
    exists|list: Vec<String>| #[trigger] call_ensures(delete, (&list,), got) && text::views(list@) == paths
}

/// Whether a round that has come to pushing ends as `r`.
pub open spec fn ends_from_pushes<
    L: Fn(&String) -> Option<(Vec<u8>, i64)>,
    P: Fn(&Vec<PushFile>) -> Result<Vec<PushResult>, String>,
    F: Fn(&Vec<String>) -> Fetched,
    S: Fn(&PullFile) -> Option<String>,
>(load: L, push: P, fetch: F, store: S, v: RoundView, r: RoundEnd) -> bool {
    exists|after: RoundView| #[trigger] push_end(load, push, fetch, store, v, after, r)
}

/// Whether a round that has come to pushing ends as `r`, with the round then
/// being `after`.
pub open spec fn push_end<
    L: Fn(&String) -> Option<(Vec<u8>, i64)>,
    P: Fn(&Vec<PushFile>) -> Result<Vec<PushResult>, String>,
    F: Fn(&Vec<String>) -> Fetched,
    S: Fn(&PullFile) -> Option<String>,
>(load: L, push: P, fetch: F, store: S, v: RoundView, after: RoundView, r: RoundEnd) -> bool {
    match r {
        Ok((baseline, report)) => {
            &&& pushed_to(load, push, fetch, store, v, batches(v.to_push.len(), PUSH_BATCH as int), after)
            &&& baseline.wf()
            &&& baseline@ == after.baseline
            &&& report@ == after.report
        },
        Err(e) => push_broke(load, push, fetch, store, v, after, e),
    }
}

/// Whether a round that has come to pulling ends as `r`.
pub open spec fn ends_from_pulls<
    L: Fn(&String) -> Option<(Vec<u8>, i64)>,
    P: Fn(&Vec<PushFile>) -> Result<Vec<PushResult>, String>,
    F: Fn(&Vec<String>) -> Fetched,
    S: Fn(&PullFile) -> Option<String>,
>(load: L, push: P, fetch: F, store: S, v: RoundView, r: RoundEnd) -> bool {
    ||| exists|after: RoundView|
        {
            &&& #[trigger] pulled_to(
                fetch,
                store,
                v,
                batches(v.to_pull.len(), PULL_BATCH as int),
                after,
            )
            &&& ends_from_pushes(load, push, fetch, store, after, r)
        }
    ||| r is Err && exists|after: RoundView| #[trigger] pull_broke(fetch, store, v, after, r->Err_0)
}

/// Whether a round that has come to the conflicts ends as `r`.
pub open spec fn ends_from_conflicts<
    F: Fn(&Vec<String>) -> Fetched,
    R: Fn(&String) -> Result<Vec<u8>, String>,
    C: Fn(&String, &String, &Vec<u8>) -> Result<String, String>,
    S: Fn(&PullFile) -> Option<String>,
    L: Fn(&String) -> Option<(Vec<u8>, i64)>,
    P: Fn(&Vec<PushFile>) -> Result<Vec<PushResult>, String>,
>(fetch: F, read: R, copy: C, store: S, load: L, push: P, v: RoundView, r: RoundEnd) -> bool {
    exists|after: RoundView|
        {
            &&& #[trigger] conflicts_settled(
                fetch,
                read,
                copy,
                store,
                v,
                v.conflicts,
                v.conflicts.len() as int,
                after,
            )
            &&& ends_from_pulls(load, push, fetch, store, after, r)
        }
}

/// Whether a round whose deletions are to be spread ends as `r`; the server is
/// asked only where there is one.
pub open spec fn ends_from_deletes<
    X: Fn(&Vec<String>) -> Result<Vec<PushResult>, String>,
    F: Fn(&Vec<String>) -> Fetched,
    R: Fn(&String) -> Result<Vec<u8>, String>,
    C: Fn(&String, &String, &Vec<u8>) -> Result<String, String>,
    S: Fn(&PullFile) -> Option<String>,
    L: Fn(&String) -> Option<(Vec<u8>, i64)>,
    P: Fn(&Vec<PushFile>) -> Result<Vec<PushResult>, String>,
>(
    delete: X,
    fetch: F,
    read: R,
    copy: C,
    store: S,
    load: L,
    push: P,
    v: RoundView,
    paths: Seq<Seq<char>>,
    r: RoundEnd,
) -> bool {
    if paths.len() == 0 {
        ends_from_conflicts(fetch, read, copy, store, load, push, v, r)
    } else {
        exists|got: Result<Vec<PushResult>, String>| #[trigger]
            deleted_as(delete, paths, got) && match got {
                Err(e) => r == Err::<(StrMap<String>, SyncReport), String>(e),
                Ok(results) => ends_from_conflicts(
                    fetch,
                    read,
                    copy,
                    store,
                    load,
                    push,
                    after_deletes(v, text::views(results@)),
                    r,
                ),
            }
    }
}

/// The round after the server's answers to a request to delete.
pub open spec fn after_deletes(v: RoundView, results: Seq<PushResultView>) -> RoundView {
    RoundView { report: round::after_deletes(v.report, results, results.len() as int), ..v }
}

/// Whether a round ends as `r`. It looks at the deletions of the server, then
/// at those of this side, settles the conflicts, pulls and pushes. A step on
/// disk that fails ends it, as does a server that does not answer.
pub open spec fn round_ends<
    A: Fn(&DiskStep) -> Option<String>,
    X: Fn(&Vec<String>) -> Result<Vec<PushResult>, String>,
    F: Fn(&Vec<String>) -> Fetched,
    R: Fn(&String) -> Result<Vec<u8>, String>,
    C: Fn(&String, &String, &Vec<u8>) -> Result<String, String>,
    S: Fn(&PullFile) -> Option<String>,
    L: Fn(&String) -> Option<(Vec<u8>, i64)>,
    P: Fn(&Vec<PushFile>) -> Result<Vec<PushResult>, String>,
>(
    act: A,
    delete: X,
    fetch: F,
    read: R,
    copy: C,
    store: S,
    load: L,
    push: P,
    v: RoundView,
    r: RoundEnd,
) -> bool {
    let (u, steps) = server_looked(v);
    let (w, paths, more) = local_looked(u);
    ||| r is Err && act_broke(act, steps, r->Err_0)
    ||| acted_to(act, steps, steps.len() as int) && r is Err && act_broke(act, more, r->Err_0)
    ||| acted_to(act, steps, steps.len() as int) && acted_to(act, more, more.len() as int)
        && ends_from_deletes(delete, fetch, read, copy, store, load, push, w, paths, r)
}

/// The round and what it does on disk once it has looked at the deletions of the
/// server.
pub open spec fn server_looked(v: RoundView) -> (RoundView, Seq<DiskStepView>) {
    round::after_server_tombstones(
        RoundView { server_tombstones: Seq::empty(), ..v },
        v.server_tombstones,
        v.server_tombstones.len() as int,
    )
}

/// The round, the paths to delete on the server and what is done on disk once it
/// has looked at the deletions of this side.
pub open spec fn local_looked(v: RoundView) -> (RoundView, Seq<Seq<char>>, Seq<DiskStepView>) {
    round::after_local_tombstones(
        RoundView { local_tombstones: Seq::empty(), ..v },
        v.local_tombstones,
        v.local_tombstones.len() as int,
    )
}

/// Whether `after` is the round once the deletions of this side were spread.
pub open spec fn deletes_done<X: Fn(&Vec<String>) -> Result<Vec<PushResult>, String>>(
    delete: X,
    v: RoundView,
    paths: Seq<Seq<char>>,
    after: RoundView,
) -> bool {
    if paths.len() == 0 {
        after == v
    } else {
        exists|results: Vec<PushResult>| #[trigger]
            deleted_as(delete, paths, Ok(results)) && after == after_deletes(v, text::views(results@))
    }
}

/// Whether a round comes to its conflicts as `x`.
pub open spec fn at_conflicts<
    A: Fn(&DiskStep) -> Option<String>,
    X: Fn(&Vec<String>) -> Result<Vec<PushResult>, String>,
>(act: A, delete: X, v: RoundView, x: RoundView) -> bool {
    let (u, steps) = server_looked(v);
    let (w, paths, more) = local_looked(u);
    &&& acted_to(act, steps, steps.len() as int)
    &&& acted_to(act, more, more.len() as int)
    &&& deletes_done(delete, w, paths, x)
}

/// Whether a round that came to its conflicts as `x` comes to pulling as `y`.
pub open spec fn at_pulls<
    F: Fn(&Vec<String>) -> Fetched,
    R: Fn(&String) -> Result<Vec<u8>, String>,
    C: Fn(&String, &String, &Vec<u8>) -> Result<String, String>,
    S: Fn(&PullFile) -> Option<String>,
>(fetch: F, read: R, copy: C, store: S, x: RoundView, y: RoundView) -> bool {
    conflicts_settled(fetch, read, copy, store, x, x.conflicts, x.conflicts.len() as int, y)
}

/// Whether a round that came to pulling as `y` comes to pushing as `z`.
pub open spec fn at_pushes<F: Fn(&Vec<String>) -> Fetched, S: Fn(&PullFile) -> Option<String>>(
    fetch: F,
    store: S,
    y: RoundView,
    z: RoundView,
) -> bool {
    pulled_to(fetch, store, y, batches(y.to_pull.len(), PULL_BATCH as int), z)
}

/// The calls that a round may make: each phase those of its own, from the state
/// that the phases before it came to. The steps on disk come first, in order;
/// the server is asked to delete only what this side has deleted.
pub open spec fn round_leave<
    A: Fn(&DiskStep) -> Option<String>,
    X: Fn(&Vec<String>) -> Result<Vec<PushResult>, String>,
    F: Fn(&Vec<String>) -> Fetched,
    R: Fn(&String) -> Result<Vec<u8>, String>,
    C: Fn(&String, &String, &Vec<u8>) -> Result<String, String>,
    S: Fn(&PullFile) -> Option<String>,
    L: Fn(&String) -> Option<(Vec<u8>, i64)>,
    P: Fn(&Vec<PushFile>) -> Result<Vec<PushResult>, String>,
>(act: A, delete: X, fetch: F, read: R, copy: C, store: S, load: L, push: P, v: RoundView) -> bool {
    let (u, steps) = server_looked(v);
    let (w, paths, more) = local_looked(u);
    &&& act_leave(act, steps)
    &&& acted_to(act, steps, steps.len() as int) ==> act_leave(act, more)
    &&& forall|l: &Vec<String>|
        {
            &&& acted_to(act, steps, steps.len() as int)
            &&& acted_to(act, more, more.len() as int)
            &&& paths.len() > 0
            &&& text::views(l@) == paths
        } ==> #[trigger] call_requires(delete, (l,))
    &&& forall|x: RoundView| #[trigger]
        at_conflicts(act, delete, v, x) ==> conflict_leave(fetch, read, copy, store, x)
    &&& forall|x: RoundView, y: RoundView| #[trigger]
        at_conflicts(act, delete, v, x) && #[trigger] at_pulls(fetch, read, copy, store, x, y) ==> pull_leave(
            fetch,
            store,
            y,
        )
    &&& forall|x: RoundView, y: RoundView, z: RoundView| #[trigger]
        at_conflicts(act, delete, v, x) && #[trigger] at_pulls(fetch, read, copy, store, x, y)
            && #[trigger] at_pushes(fetch, store, y, z) ==> push_leave(load, push, fetch, store, z)
}

/// Runs a round to its end. `act` takes a step on disk and says what went wrong,
/// `delete` asks the server to delete paths, `fetch` asks it for files, `read`
/// reads the local version of a conflict, `copy` keeps a version as a conflict
/// copy, `store` stores a file of the server, `load` reads a file to push with
/// its modification time, and `push` sends files.
pub fn sync_round<
    A: Fn(&DiskStep) -> Option<String>,
    X: Fn(&Vec<String>) -> Result<Vec<PushResult>, String>,
    F: Fn(&Vec<String>) -> Fetched + Copy,
    R: Fn(&String) -> Result<Vec<u8>, String>,
    C: Fn(&String, &String, &Vec<u8>) -> Result<String, String>,
    S: Fn(&PullFile) -> Option<String> + Copy,
    L: Fn(&String) -> Option<(Vec<u8>, i64)>,
    P: Fn(&Vec<PushFile>) -> Result<Vec<PushResult>, String>,
>(core: RoundCore, act: A, delete: X, fetch: F, read: R, copy: C, store: S, load: L, push: P) -> (r: RoundEnd)
    requires
        core.wf(),
        round_leave(act, delete, fetch, read, copy, store, load, push, core@),
        exchange::reads_fit(load),
    ensures
        round_ends(act, delete, fetch, read, copy, store, load, push, core@, r),
{
    let ghost v = core@;
    let mut core = core;
    let steps = core.server_tombstones_phase();
    if let Some(e) = take_steps(&steps, &act) {
        return Err(e);
    }
    let (paths, more) = core.local_tombstones_phase();
    if let Some(e) = take_steps(&more, &act) {
        return Err(e);
    }
    let ghost asked = text::views(paths@);
    if paths.len() > 0 {
        let got = delete(&paths);
        assert(call_ensures(delete, (&paths,), got));
        assert(deleted_as(delete, asked, got));
        match got {
            Err(e) => {
                assert(deleted_as(delete, asked, Err(e)));
                return Err(e);
            },
            Ok(results) => {
                assert(deleted_as(delete, asked, Ok(results)));
                core.note_deletes(&results);
            },
        }
    }
    let ghost clashing = core@;
    assert(at_conflicts(act, delete, v, clashing));
    core.resolve_conflicts(fetch, read, copy, store);
    let ghost settled = core@;
    assert(at_pulls(fetch, read, copy, store, clashing, settled));
    if let Err(e) = core.pull_phase(fetch, store) {
        assert(pull_broke(fetch, store, settled, core@, e));
        return Err(e);
    }
    let ghost pulled = core@;
    assert(at_pushes(fetch, store, settled, pulled));
    if let Err(e) = core.push_phase(load, push, fetch, store) {
        assert(push_end(load, push, fetch, store, pulled, core@, Err(e)));
        return Err(e);
    }
    let ghost pushed = core@;
    let end = core.finish();
    assert(push_end(load, push, fetch, store, pulled, pushed, Ok(end)));
    Ok(end)
}

/// A round that has no deletion to look at, no conflict, and nothing to pull or
/// push ends well, whatever the disk and the server would have said: its report
/// and its baseline are those that it began with.
pub proof fn law_idle_round_ends_well<
    A: Fn(&DiskStep) -> Option<String>,
    X: Fn(&Vec<String>) -> Result<Vec<PushResult>, String>,
    F: Fn(&Vec<String>) -> Fetched,
    R: Fn(&String) -> Result<Vec<u8>, String>,
    C: Fn(&String, &String, &Vec<u8>) -> Result<String, String>,
    S: Fn(&PullFile) -> Option<String>,
    L: Fn(&String) -> Option<(Vec<u8>, i64)>,
    P: Fn(&Vec<PushFile>) -> Result<Vec<PushResult>, String>,
>(
    act: A,
    delete: X,
    fetch: F,
    read: R,
    copy: C,
    store: S,
    load: L,
    push: P,
    v: RoundView,
    r: RoundEnd,
)
    requires
        round_ends(act, delete, fetch, read, copy, store, load, push, v, r),
        v.server_tombstones.len() == 0,
        v.local_tombstones.len() == 0,
        v.conflicts.len() == 0,
        v.to_pull.len() == 0,
        v.to_push.len() == 0,
    ensures
        match r {
            Ok((baseline, report)) => baseline@ == v.baseline && report@ == v.report,
            Err(_) => false,
        },
{
    assert(batches(0, PULL_BATCH as int) == 0);
    assert(batches(0, PUSH_BATCH as int) == 0);
}

// ---------- nothing is left out ----------

/// Whether a path was asked for, in a batch of at most 32, and an answer came.
pub open spec fn asked_for<F: Fn(&Vec<String>) -> Fetched>(fetch: F, path: Seq<char>) -> bool {
    exists|list: Vec<String>, files: Vec<PullFile>, missing: Vec<(String, String)>|
        {
            &&& #[trigger] call_ensures(fetch, (&list,), Ok((files, missing)))
            &&& list@.len() <= 32
            &&& text::views(list@).contains(path)
        }
}

proof fn lemma_batches(len: nat, size: int, i: int)
    requires
        size > 0,
        0 <= i < len,
    ensures
        0 <= i / size < batches(len, size),
        size * (i / size) <= i < size * (i / size) + size,
{
    assert(size * (i / size) <= i < size * (i / size) + size) by (nonlinear_arith)
        requires
            size > 0,
            0 <= i,
    ;
    let k = i / size;
    let n = (len + size - 1) / size;
    assert(0 <= k) by (nonlinear_arith)
        requires
            size > 0,
            0 <= i,
            k == i / size,
    ;
    assert(size * n + size > len + size - 1) by (nonlinear_arith)
        requires
            size > 0,
            n == (len + size - 1) / size,
    ;
    assert(k < n) by (nonlinear_arith)
        requires
            size > 0,
            size * k <= i,
            i < len,
            size * n + size > len + size - 1,
    ;
}

proof fn lemma_batch_was_pulled<F: Fn(&Vec<String>) -> Fetched, S: Fn(&PullFile) -> Option<String>>(
    fetch: F,
    store: S,
    v: RoundView,
    n: int,
    after: RoundView,
    k: int,
)
    requires
        pulled_to(fetch, store, v, n, after),
        0 <= k < n,
    ensures
        exists|files: Vec<PullFile>, missing: Vec<(String, String)>| #[trigger]
            fetched_as(fetch, exchange::batch_of(v.to_pull, PULL_BATCH * k, PULL_BATCH as int), Ok((files, missing))),
    decreases n,
{
    let mid = choose|mid: RoundView|
        {
            &&& pulled_to(fetch, store, v, n - 1, mid)
            &&& #[trigger] batch_pulled(
                fetch,
                store,
                mid,
                exchange::batch_of(v.to_pull, PULL_BATCH * (n - 1), PULL_BATCH as int),
                after,
            )
        };
    if k < n - 1 {
        lemma_batch_was_pulled(fetch, store, v, n - 1, mid, k);
    }
}

/// A pull phase that ends well has asked for every path that was to be pulled.
pub proof fn law_every_pull_is_asked_for<F: Fn(&Vec<String>) -> Fetched, S: Fn(&PullFile) -> Option<String>>(
    fetch: F,
    store: S,
    v: RoundView,
    after: RoundView,
    i: int,
)
    requires
        pulled_to(fetch, store, v, batches(v.to_pull.len(), PULL_BATCH as int), after),
        0 <= i < v.to_pull.len(),
    ensures
        asked_for(fetch, v.to_pull[i]),
{
    let size = PULL_BATCH as int;
    let k = i / size;
    lemma_batches(v.to_pull.len(), size, i);
    lemma_batch_was_pulled(fetch, store, v, batches(v.to_pull.len(), size), after, k);
    let paths = exchange::batch_of(v.to_pull, size * k, size);
    let (files, missing) = choose|files: Vec<PullFile>, missing: Vec<(String, String)>| #[trigger]
        fetched_as(fetch, paths, Ok((files, missing)));
    let list = choose|list: Vec<String>| #[trigger]
        call_ensures(fetch, (&list,), Ok((files, missing))) && text::views(list@) == paths;
    assert(paths[i - size * k] == v.to_pull[i]);
    assert(text::views(list@).len() == list@.len());
}

/// Both sides, as the round saw them at its start.
spec fn same_sides(a: RoundView, b: RoundView) -> bool {
    a.local == b.local && a.server == b.server
}

proof fn lemma_answers_keep_sides<F: Fn(&Vec<String>) -> Fetched, S: Fn(&PullFile) -> Option<String>>(
    fetch: F,
    store: S,
    v: RoundView,
    batch: Seq<PushFileView>,
    results: Seq<PushResultView>,
    n: int,
    after: RoundView,
)
    requires
        answers_taken(fetch, store, v, batch, results, n, after),
    ensures
        same_sides(v, after),
    decreases n,
{
    if n > 0 {
        let mid = choose|mid: RoundView|
            {
                &&& answers_taken(fetch, store, v, batch, results, n - 1, mid)
                &&& #[trigger] answer_taken(fetch, store, mid, batch, results[n - 1], after)
            };
        lemma_answers_keep_sides(fetch, store, v, batch, results, n - 1, mid);
    }
}

proof fn lemma_prepared_keep_sides<R: Fn(&String) -> Option<(Vec<u8>, i64)>>(
    read: R,
    v: RoundView,
    items: Seq<(Seq<char>, Seq<char>)>,
    n: int,
    after: RoundView,
    batch: Seq<PushFileView>,
)
    requires
        batch_prepared(read, v, items, n, after, batch),
    ensures
        same_sides(v, after),
        n >= 0 ==> batch.len() <= n,
    decreases n,
{
    if n > 0 {
        let (mid, made) = choose|mid: RoundView, made: Option<PushFileView>|
            {
                &&& #[trigger] exchange::one_prepared(read, mid, items[n - 1], after, made)
                &&& match made {
                    None => batch_prepared(read, v, items, n - 1, mid, batch),
                    Some(f) => batch.len() > 0 && batch.last() == f && batch_prepared(
                        read,
                        v,
                        items,
                        n - 1,
                        mid,
                        batch.drop_last(),
                    ),
                }
            };
        match made {
            None => lemma_prepared_keep_sides(read, v, items, n - 1, mid, batch),
            Some(f) => lemma_prepared_keep_sides(read, v, items, n - 1, mid, batch.drop_last()),
        }
    }
}

/// Whether a file was read to be pushed, and what came of it: nothing, or the
/// file as it is pushed against `base_hash`.
pub open spec fn read_for_push<R: Fn(&String) -> Option<(Vec<u8>, i64)>>(
    read: R,
    path: Seq<char>,
    kind: Seq<char>,
    base_hash: Seq<char>,
    made: Option<PushFileView>,
) -> bool {
    exists|p: String, got: Option<(Vec<u8>, i64)>|
        {
            &&& #[trigger] call_ensures(read, (&p,), got)
            &&& p@ == path
            &&& match got {
                None => made is None,
                Some((bytes, mtime_ms)) => made is Some && carries(
                    made->0,
                    path,
                    kind,
                    base_hash,
                    bytes@,
                    mtime_ms,
                ),
            }
        }
}

/// Whether a pushed file carries the bytes and the time of a file.
pub open spec fn carries(
    f: PushFileView,
    path: Seq<char>,
    kind: Seq<char>,
    base_hash: Seq<char>,
    bytes: Seq<u8>,
    mtime_ms: i64,
) -> bool {
    &&& f.path == path
    &&& f.kind == kind
    &&& f.base_hash == base_hash
    &&& f.mtime_ms == mtime_ms
    &&& f.hash == text::hex(crate::digest::sha256(bytes))
    &&& f.content_base64 == crate::digest::base64_encoded(bytes)
}

proof fn lemma_item_prepared<R: Fn(&String) -> Option<(Vec<u8>, i64)>>(
    read: R,
    v: RoundView,
    items: Seq<(Seq<char>, Seq<char>)>,
    n: int,
    after: RoundView,
    batch: Seq<PushFileView>,
    i: int,
) -> (made: Option<PushFileView>)
    requires
        batch_prepared(read, v, items, n, after, batch),
        0 <= i < n <= items.len(),
        v.local.dom().contains(items[i].0),
    ensures
        read_for_push(read, items[i].0, v.local[items[i].0].kind, items[i].1, made),
        made matches Some(f) ==> batch.contains(f),
    decreases n,
{
    let (mid, last) = choose|mid: RoundView, made: Option<PushFileView>|
        {
            &&& #[trigger] exchange::one_prepared(read, mid, items[n - 1], after, made)
            &&& match made {
                None => batch_prepared(read, v, items, n - 1, mid, batch),
                Some(f) => batch.len() > 0 && batch.last() == f && batch_prepared(
                    read,
                    v,
                    items,
                    n - 1,
                    mid,
                    batch.drop_last(),
                ),
            }
        };
    let rest = match last {
        None => batch,
        Some(f) => batch.drop_last(),
    };
    lemma_prepared_keep_sides(read, v, items, n - 1, mid, rest);
    if i < n - 1 {
        let made = lemma_item_prepared(read, v, items, n - 1, mid, rest, i);
        if made is Some && last is Some {
            let k = choose|k: int| 0 <= k < rest.len() && rest[k] == made->0;
            assert(batch[k] == made->0);
        }
        made
    } else {
        let item = items[n - 1];
        let (p, got) = choose|p: String, got: Option<(Vec<u8>, i64)>|
            {
                &&& #[trigger] call_ensures(read, (&p,), got)
                &&& p@ == item.0
                &&& (after, last) == exchange::prepared(mid, item.0, item.1, exchange::read_bytes(got))
            };
        assert(call_ensures(read, (&p,), got));
        if last is Some {
            assert(batch[batch.len() - 1] == last->0);
        }
        last
    }
}

/// Whether a file was pushed in a batch of at most 8, and an answer came.
pub open spec fn was_pushed<P: Fn(&Vec<PushFile>) -> Result<Vec<PushResult>, String>>(push: P, f: PushFileView) -> bool {
    exists|list: Vec<PushFile>, results: Vec<PushResult>|
        {
            &&& #[trigger] call_ensures(push, (&list,), Ok(results))
            &&& list@.len() <= 8
            &&& text::views(list@).contains(f)
        }
}

proof fn lemma_push_batches<
    R: Fn(&String) -> Option<(Vec<u8>, i64)>,
    P: Fn(&Vec<PushFile>) -> Result<Vec<PushResult>, String>,
    F: Fn(&Vec<String>) -> Fetched,
    S: Fn(&PullFile) -> Option<String>,
>(read: R, push: P, fetch: F, store: S, v: RoundView, n: int, after: RoundView, k: int) -> (r: (
    RoundView,
    RoundView,
    Seq<PushFileView>,
    RoundView,
))
    requires
        pushed_to(read, push, fetch, store, v, n, after),
        k < n,
    ensures
        same_sides(v, after),
        0 <= k ==> {
            let items = exchange::batch_of(v.to_push, PUSH_BATCH * k, PUSH_BATCH as int);
            &&& same_sides(v, r.0)
            &&& batch_prepared(read, r.0, items, items.len() as int, r.1, r.2)
            &&& batch_sent(push, fetch, store, r.1, r.2, r.3)
        },
    decreases n,
{
    if n <= 0 {
        (v, v, Seq::empty(), v)
    } else {
        let mid = choose|mid: RoundView|
            {
                &&& pushed_to(read, push, fetch, store, v, n - 1, mid)
                &&& #[trigger] batch_pushed(
                    read,
                    push,
                    fetch,
                    store,
                    mid,
                    exchange::batch_of(v.to_push, PUSH_BATCH * (n - 1), PUSH_BATCH as int),
                    after,
                )
            };
        let items = exchange::batch_of(v.to_push, PUSH_BATCH * (n - 1), PUSH_BATCH as int);
        let (ready, batch) = choose|ready: RoundView, batch: Seq<PushFileView>|
            batch_prepared(read, mid, items, items.len() as int, ready, batch) && #[trigger] batch_sent(
                push,
                fetch,
                store,
                ready,
                batch,
                after,
            );
        lemma_prepared_keep_sides(read, mid, items, items.len() as int, ready, batch);
        if batch.len() > 0 {
            let results = choose|results: Vec<PushResult>| #[trigger]
                pushed_as(push, batch, Ok(results)) && answers_taken(
                    fetch,
                    store,
                    ready,
                    batch,
                    text::views(results@),
                    results@.len() as int,
                    after,
                );
            lemma_answers_keep_sides(
                fetch,
                store,
                ready,
                batch,
                text::views(results@),
                results@.len() as int,
                after,
            );
        }
        let before = lemma_push_batches(
            read,
            push,
            fetch,
            store,
            v,
            n - 1,
            mid,
            if k < n - 1 {
                k
            } else {
                -1
            },
        );
        if k < n - 1 {
            before
        } else {
            (mid, ready, batch, after)
        }
    }
}

/// A push phase that ends well has pushed every file that was to be pushed and
/// could be read, with its content and against the version that this side has
/// seen.
pub proof fn law_every_push_is_sent<
    R: Fn(&String) -> Option<(Vec<u8>, i64)>,
    P: Fn(&Vec<PushFile>) -> Result<Vec<PushResult>, String>,
    F: Fn(&Vec<String>) -> Fetched,
    S: Fn(&PullFile) -> Option<String>,
>(read: R, push: P, fetch: F, store: S, v: RoundView, after: RoundView, i: int)
    requires
        pushed_to(read, push, fetch, store, v, batches(v.to_push.len(), PUSH_BATCH as int), after),
        0 <= i < v.to_push.len(),
        v.local.dom().contains(v.to_push[i].0),
    ensures
        exists|made: Option<PushFileView>|
            {
                &&& #[trigger] read_for_push(
                    read,
                    v.to_push[i].0,
                    v.local[v.to_push[i].0].kind,
                    v.to_push[i].1,
                    made,
                )
                &&& made matches Some(f) ==> was_pushed(push, f)
            },
{
    let size = PUSH_BATCH as int;
    let k = i / size;
    let n = batches(v.to_push.len(), size);
    lemma_batches(v.to_push.len(), size, i);
    let (mid, ready, batch, done) = lemma_push_batches(read, push, fetch, store, v, n, after, k);
    let items = exchange::batch_of(v.to_push, size * k, size);
    let j = i - size * k;
    assert(items[j] == v.to_push[i]);
    let made = lemma_item_prepared(read, mid, items, items.len() as int, ready, batch, j);
    if made is Some {
        let f = made->0;
        assert(batch.contains(f));
        assert(batch.len() > 0);
        let results = choose|results: Vec<PushResult>| #[trigger]
            pushed_as(push, batch, Ok(results)) && answers_taken(
                fetch,
                store,
                ready,
                batch,
                text::views(results@),
                results@.len() as int,
                done,
            );
        let list = choose|list: Vec<PushFile>| #[trigger]
            call_ensures(push, (&list,), Ok(results)) && text::views(list@) == batch;
        assert(call_ensures(push, (&list,), Ok(results)));
        lemma_prepared_keep_sides(read, mid, items, items.len() as int, ready, batch);
        assert(text::views(list@).len() == list@.len());
        assert(was_pushed(push, f));
    }
}

proof fn lemma_conflict_step<
    F: Fn(&Vec<String>) -> Fetched,
    R: Fn(&String) -> Result<Vec<u8>, String>,
    C: Fn(&String, &String, &Vec<u8>) -> Result<String, String>,
    S: Fn(&PullFile) -> Option<String>,
>(fetch: F, read: R, copy: C, store: S, v: RoundView, path: Seq<char>, after: RoundView)
    requires
        conflict_settled(fetch, read, copy, store, v, path, after),
    ensures
        same_sides(v, after),
        v.local.dom().contains(path) && v.server.dom().contains(path) ==> exists|got: Fetched| #[trigger]
            fetched_as(fetch, seq![path], got),
{
    let begun = exchange::conflict_begun(v, path);
    if !(begun.1 is Done) {
        let got = choose|got: Fetched| #[trigger]
            fetched_as(fetch, seq![path], got) && step_taken(
                read,
                copy,
                store,
                exchange::conflict_met(v, path, got).0,
                path,
                exchange::conflict_met(v, path, got).1,
                after,
            );
        assert(fetched_as(fetch, seq![path], got));
    }
}

/// Every conflict is met: the server's version of each path that both sides list
/// is asked for.
pub proof fn law_every_conflict_is_met<
    F: Fn(&Vec<String>) -> Fetched,
    R: Fn(&String) -> Result<Vec<u8>, String>,
    C: Fn(&String, &String, &Vec<u8>) -> Result<String, String>,
    S: Fn(&PullFile) -> Option<String>,
>(
    fetch: F,
    read: R,
    copy: C,
    store: S,
    v: RoundView,
    conflicts: Seq<(Seq<char>, Seq<char>)>,
    n: int,
    after: RoundView,
    i: int,
)
    requires
        conflicts_settled(fetch, read, copy, store, v, conflicts, n, after),
        n <= conflicts.len(),
    ensures
        after.local == v.local,
        after.server == v.server,
        0 <= i < n && v.local.dom().contains(conflicts[i].0) && v.server.dom().contains(conflicts[i].0)
            ==> exists|list: Vec<String>, got: Fetched| #[trigger]
            call_ensures(fetch, (&list,), got) && text::views(list@) == seq![conflicts[i].0],
    decreases n,
{
    if n > 0 {
        let mid = choose|mid: RoundView|
            {
                &&& conflicts_settled(fetch, read, copy, store, v, conflicts, n - 1, mid)
                &&& #[trigger] conflict_settled(fetch, read, copy, store, mid, conflicts[n - 1].0, after)
            };
        law_every_conflict_is_met(fetch, read, copy, store, v, conflicts, n - 1, mid, i);
        lemma_conflict_step(fetch, read, copy, store, mid, conflicts[n - 1].0, after);
        if i == n - 1 && v.local.dom().contains(conflicts[i].0) && v.server.dom().contains(conflicts[i].0) {
            let path = conflicts[i].0;
            let got = choose|got: Fetched| #[trigger] fetched_as(fetch, seq![path], got);
            let list = choose|list: Vec<String>| #[trigger]
                call_ensures(fetch, (&list,), got) && text::views(list@) == seq![path];
            assert(call_ensures(fetch, (&list,), got));
        }
    }
}

/// A round that ends well has taken every step on disk that the deletions of both
/// sides call for, in order, and has told the server of every deletion that goes
/// there; it then gives the hashes that it left on the server.
pub proof fn law_round_carries_deletions_both_ways<
    A: Fn(&DiskStep) -> Option<String>,
    X: Fn(&Vec<String>) -> Result<Vec<PushResult>, String>,
    F: Fn(&Vec<String>) -> Fetched + Copy,
    R: Fn(&String) -> Result<Vec<u8>, String>,
    C: Fn(&String, &String, &Vec<u8>) -> Result<String, String>,
    S: Fn(&PullFile) -> Option<String> + Copy,
    L: Fn(&String) -> Option<(Vec<u8>, i64)>,
    P: Fn(&Vec<PushFile>) -> Result<Vec<PushResult>, String>,
>(
    core: RoundCore,
    act: A,
    delete: X,
    fetch: F,
    read: R,
    copy: C,
    store: S,
    load: L,
    push: P,
    r: RoundEnd,
    t: sync::TombstoneView,
)
    requires
        call_ensures(
            sync_round::<A, X, F, R, C, S, L, P>,
            (core, act, delete, fetch, read, copy, store, load, push),
            r,
        ),
        r is Ok,
    ensures
        core@.server_tombstones.contains(t) && round::reaches(core@, t) ==> {
            &&& exists|s: DiskStep| #[trigger]
                call_ensures(act, (&s,), None::<String>) && s@ == DiskStepView::SoftDelete(t.path)
            &&& exists|s: DiskStep| #[trigger]
                call_ensures(act, (&s,), None::<String>) && s@ == DiskStepView::Record(t)
        },
        core@.server_tombstones.contains(t) && round::survives(core@, t) ==> exists|s: DiskStep| #[trigger]
            call_ensures(act, (&s,), None::<String>) && s@ == DiskStepView::Clear(t.path),
        local_looked(server_looked(core@).0).1.len() > 0 ==> exists|list: Vec<String>, results: Vec<PushResult>|
            #[trigger] call_ensures(delete, (&list,), Ok(results)) && text::views(list@) == local_looked(
                server_looked(core@).0,
            ).1,
{
    let v = core@;
    let start = RoundView { server_tombstones: Seq::empty(), ..v };
    let list = v.server_tombstones;
    let (u, steps) = server_looked(v);
    if list.contains(t) {
        let i = choose|i: int| 0 <= i < list.len() && list[i] == t;
        round::law_server_deletions_do_what_they_say(start, list, list.len() as int, t.path, t);
        assert(list[i].path == t.path);
        if round::reaches(v, t) {
            assert(round::reaches(start, list[i]));
            assert(steps.contains(DiskStepView::SoftDelete(t.path)));
            let a = choose|a: int| 0 <= a < steps.len() && steps[a] == DiskStepView::SoftDelete(t.path);
            assert(acted(act, steps[a], None));
            assert(steps.contains(DiskStepView::Record(t)));
            let b = choose|b: int| 0 <= b < steps.len() && steps[b] == DiskStepView::Record(t);
            assert(acted(act, steps[b], None));
        }
        if round::survives(v, t) {
            assert(round::survives(start, list[i]));
            assert(steps.contains(DiskStepView::Clear(t.path)));
            let a = choose|a: int| 0 <= a < steps.len() && steps[a] == DiskStepView::Clear(t.path);
            assert(acted(act, steps[a], None));
        }
    }
    let paths = local_looked(u).1;
    if paths.len() > 0 {
        let got = choose|got: Result<Vec<PushResult>, String>| #[trigger]
            deleted_as(delete, paths, got) && got is Ok;
        let list = choose|list: Vec<String>| #[trigger]
            call_ensures(delete, (&list,), got) && text::views(list@) == paths;
        assert(call_ensures(delete, (&list,), Ok(got->Ok_0)));
    }
}

// ---------- a round does all that it planned ----------

/// Whether a list goes on where another ends.
pub open spec fn goes_on<T>(a: Seq<T>, b: Seq<T>) -> bool {
    a.len() <= b.len() && forall|i: int| 0 <= i < a.len() ==> #[trigger] b[i] == a[i]
}

/// Whether a report goes on where another ends: nothing that was told is taken
/// back.
pub open spec fn tells_more(a: sync::SyncReportView, b: sync::SyncReportView) -> bool {
    &&& goes_on(a.pulled, b.pulled)
    &&& goes_on(a.pushed, b.pushed)
    &&& goes_on(a.errors, b.errors)
    &&& goes_on(a.deleted, b.deleted)
    &&& goes_on(a.merges, b.merges)
    &&& a.skipped == b.skipped
}

proof fn lemma_missing_tell_more(report: sync::SyncReportView, missing: Seq<(Seq<char>, Seq<char>)>, n: int)
    ensures
        tells_more(report, exchange::after_missing(report, missing, n)),
    decreases n,
{
    if n > 0 && n <= missing.len() {
        lemma_missing_tell_more(report, missing, n - 1);
    }
}

proof fn lemma_stored_keep(v: RoundView, files: Seq<PullFileView>, stored: Seq<Option<Seq<char>>>, n: int, k: int)
    ensures
        ({
            let u = exchange::after_stored(v, files, stored, n);
            &&& same_sides(v, u)
            &&& u.to_push == v.to_push
            &&& u.to_pull == v.to_pull
            &&& u.conflicts == v.conflicts
            &&& tells_more(v.report, u.report)
            &&& 0 <= k < n <= files.len() && stored[k] is None ==> u.report.pulled.contains(files[k].path)
            &&& 0 <= k < n <= files.len() && stored[k] is Some ==> u.report.errors.contains(stored[k]->0)
        }),
    decreases n,
{
    if n > 0 && n <= files.len() {
        lemma_stored_keep(v, files, stored, n - 1, k);
        let u = exchange::after_stored(v, files, stored, n - 1);
        let w = exchange::after_stored(v, files, stored, n);
        if stored[n - 1] is None {
            assert(w.report.pulled[u.report.pulled.len() as int] == files[n - 1].path);
            if 0 <= k < n - 1 && stored[k] is None {
                let j = choose|j: int| 0 <= j < u.report.pulled.len() && u.report.pulled[j] == files[k].path;
                assert(w.report.pulled[j] == files[k].path);
            }
        } else {
            assert(w.report.errors[u.report.errors.len() as int] == stored[n - 1]->0);
            if 0 <= k < n - 1 && stored[k] is Some {
                let j = choose|j: int| 0 <= j < u.report.errors.len() && u.report.errors[j] == stored[k]->0;
                assert(w.report.errors[j] == stored[k]->0);
            }
        }
    }
}

proof fn lemma_goes_on_has<T>(a: Seq<T>, b: Seq<T>, x: T)
    requires
        goes_on(a, b),
        a.contains(x),
    ensures
        b.contains(x),
{
    let k = choose|k: int| 0 <= k < a.len() && a[k] == x;
    assert(b[k] == x);
}

proof fn lemma_batch_pulled_keeps<F: Fn(&Vec<String>) -> Fetched, S: Fn(&PullFile) -> Option<String>>(
    fetch: F,
    store: S,
    v: RoundView,
    paths: Seq<Seq<char>>,
    after: RoundView,
)
    requires
        batch_pulled(fetch, store, v, paths, after),
    ensures
        same_sides(v, after),
        after.to_push == v.to_push,
        after.to_pull == v.to_pull,
        tells_more(v.report, after.report),
        exists|files: Vec<PullFile>, missing: Vec<(String, String)>| #[trigger]
            fetched_as(fetch, paths, Ok((files, missing))) && forall|k: int|
                0 <= k < files@.len() ==> is_told(store, #[trigger] files@[k], after.report),
{
    let (files, missing, stored) = choose|
        files: Vec<PullFile>,
        missing: Vec<(String, String)>,
        stored: Seq<Option<String>>,
    |
        fetched_as(fetch, paths, Ok((files, missing))) && #[trigger] batch_stored(
            store,
            v,
            files@,
            missing@,
            stored,
            after,
        );
    let start = RoundView {
        report: exchange::after_missing(v.report, text::views(missing@), missing@.len() as int),
        ..v
    };
    let views = text::views(files@);
    let told = exchange::opt_views(stored);
    lemma_missing_tell_more(v.report, text::views(missing@), missing@.len() as int);
    lemma_stored_keep(start, views, told, views.len() as int, -1);
    assert forall|k: int| 0 <= k < files@.len() implies is_told(store, #[trigger] files@[k], after.report) by {
        lemma_stored_keep(start, views, told, views.len() as int, k);
        assert(stored_as(store, files@[k]@, stored[k]));
        assert(views[k] == files@[k]@);
        assert(told[k] == text::opt_view(stored[k]));
        let file = choose|file: PullFile| #[trigger] call_ensures(store, (&file,), stored[k]) && file@ == files@[k]@;
        assert(call_ensures(store, (&file,), stored[k]));
    }
}

/// Whether a file that came was stored, and what came of that is told: it counts
/// as pulled, or its fault is among the errors.
pub open spec fn is_told<S: Fn(&PullFile) -> Option<String>>(
    store: S,
    f: PullFile,
    report: sync::SyncReportView,
) -> bool {
    exists|g: PullFile, stored: Option<String>|
        {
            &&& #[trigger] call_ensures(store, (&g,), stored)
            &&& g@ == f@
            &&& stored is None ==> report.pulled.contains(f@.path)
            &&& stored matches Some(e) ==> report.errors.contains(e@)
        }
}

proof fn lemma_still_told<S: Fn(&PullFile) -> Option<String>>(
    store: S,
    f: PullFile,
    a: sync::SyncReportView,
    b: sync::SyncReportView,
)
    requires
        is_told(store, f, a),
        tells_more(a, b),
    ensures
        is_told(store, f, b),
{
    let (g, stored) = choose|g: PullFile, stored: Option<String>|
        {
            &&& #[trigger] call_ensures(store, (&g,), stored)
            &&& g@ == f@
            &&& stored is None ==> a.pulled.contains(f@.path)
            &&& stored matches Some(e) ==> a.errors.contains(e@)
        };
    match stored {
        None => lemma_goes_on_has(a.pulled, b.pulled, f@.path),
        Some(e) => lemma_goes_on_has(a.errors, b.errors, e@),
    }
    assert(call_ensures(store, (&g,), stored));
}

proof fn lemma_pulls_keep<F: Fn(&Vec<String>) -> Fetched, S: Fn(&PullFile) -> Option<String>>(
    fetch: F,
    store: S,
    v: RoundView,
    n: int,
    after: RoundView,
    k: int,
)
    requires
        pulled_to(fetch, store, v, n, after),
    ensures
        same_sides(v, after),
        after.to_push == v.to_push,
        tells_more(v.report, after.report),
        0 <= k < n ==> exists|files: Vec<PullFile>, missing: Vec<(String, String)>| #[trigger]
            fetched_as(fetch, exchange::batch_of(v.to_pull, PULL_BATCH * k, PULL_BATCH as int), Ok((files, missing)))
                && forall|j: int| 0 <= j < files@.len() ==> is_told(store, #[trigger] files@[j], after.report),
    decreases n,
{
    if n > 0 {
        let mid = choose|mid: RoundView|
            {
                &&& pulled_to(fetch, store, v, n - 1, mid)
                &&& #[trigger] batch_pulled(
                    fetch,
                    store,
                    mid,
                    exchange::batch_of(v.to_pull, PULL_BATCH * (n - 1), PULL_BATCH as int),
                    after,
                )
            };
        let paths = exchange::batch_of(v.to_pull, PULL_BATCH * (n - 1), PULL_BATCH as int);
        lemma_pulls_keep(fetch, store, v, n - 1, mid, k);
        lemma_batch_pulled_keeps(fetch, store, mid, paths, after);
        if 0 <= k < n - 1 {
            let (files, missing) = choose|files: Vec<PullFile>, missing: Vec<(String, String)>| #[trigger]
                fetched_as(
                    fetch,
                    exchange::batch_of(v.to_pull, PULL_BATCH * k, PULL_BATCH as int),
                    Ok((files, missing)),
                ) && forall|j: int| 0 <= j < files@.len() ==> is_told(store, #[trigger] files@[j], mid.report);
            assert forall|j: int| 0 <= j < files@.len() implies is_told(store, #[trigger] files@[j], after.report) by {
                lemma_still_told(store, files@[j], mid.report, after.report);
            }
        }
    }
}

/// A path that is to be pulled is asked for, and every file that comes with the
/// answer is stored; it then counts as pulled, or its fault is told.
pub proof fn law_what_comes_is_stored<F: Fn(&Vec<String>) -> Fetched, S: Fn(&PullFile) -> Option<String>>(
    fetch: F,
    store: S,
    v: RoundView,
    after: RoundView,
    i: int,
)
    requires
        pulled_to(fetch, store, v, batches(v.to_pull.len(), PULL_BATCH as int), after),
        0 <= i < v.to_pull.len(),
    ensures
        exists|list: Vec<String>, files: Vec<PullFile>, missing: Vec<(String, String)>|
            {
                &&& #[trigger] call_ensures(fetch, (&list,), Ok((files, missing)))
                &&& text::views(list@).contains(v.to_pull[i])
                &&& forall|j: int| 0 <= j < files@.len() ==> is_told(store, #[trigger] files@[j], after.report)
            },
{
    let size = PULL_BATCH as int;
    let k = i / size;
    lemma_batches(v.to_pull.len(), size, i);
    lemma_pulls_keep(fetch, store, v, batches(v.to_pull.len(), size), after, k);
    let paths = exchange::batch_of(v.to_pull, size * k, size);
    let (files, missing) = choose|files: Vec<PullFile>, missing: Vec<(String, String)>| #[trigger]
        fetched_as(fetch, paths, Ok((files, missing))) && forall|j: int|
            0 <= j < files@.len() ==> is_told(store, #[trigger] files@[j], after.report);
    let list = choose|list: Vec<String>| #[trigger]
        call_ensures(fetch, (&list,), Ok((files, missing))) && text::views(list@) == paths;
    assert(paths[i - size * k] == v.to_pull[i]);
    assert(call_ensures(fetch, (&list,), Ok((files, missing))));
}

proof fn lemma_answer_tells_more<F: Fn(&Vec<String>) -> Fetched, S: Fn(&PullFile) -> Option<String>>(
    fetch: F,
    store: S,
    v: RoundView,
    batch: Seq<PushFileView>,
    r: PushResultView,
    after: RoundView,
)
    requires
        answer_taken(fetch, store, v, batch, r, after),
    ensures
        tells_more(v.report, after.report),
        !r.ok && (exists|k: int| 0 <= k < batch.len() && (#[trigger] batch[k]).path == r.path)
            ==> after.report.errors.len() == v.report.errors.len() + 1 && after.baseline == v.baseline,
        r.ok && (exists|k: int| 0 <= k < batch.len() && (#[trigger] batch[k]).path == r.path)
            ==> after.report.pushed.contains(r.path) || after.report.pulled.contains(r.path)
            || after.report.errors.len() == v.report.errors.len() + 1,
{
    exchange::lemma_batch_index(batch, r.path);
    let k = exchange::batch_index(batch, r.path);
    let settled = exchange::push_settled(v, batch, r);
    if exists|j: int| 0 <= j < batch.len() && (#[trigger] batch[j]).path == r.path {
        let j = choose|j: int| 0 <= j < batch.len() && (#[trigger] batch[j]).path == r.path;
        assert(k < batch.len());
    }
    if settled.1 {
        let (got, stored) = choose|got: Fetched, stored: Option<String>|
            fetched_as(fetch, seq![batch[k].path], got) && #[trigger] correction_stored(
                store,
                settled.0,
                batch[k],
                r.conflict_saved_as,
                exchange::correction_of(batch[k].path, got),
                stored,
                after,
            );
        let o = exchange::corrected(
            batch[k].path,
            exchange::correction_of(batch[k].path, got),
            text::opt_view(stored),
        );
        if o is Ok {
            assert(after.report.pulled[v.report.pulled.len() as int] == r.path);
        }
    } else if r.ok && 0 <= k < batch.len() {
        assert(after.report.pushed[v.report.pushed.len() as int] == r.path);
    }
}

proof fn lemma_answers_tell_more<F: Fn(&Vec<String>) -> Fetched, S: Fn(&PullFile) -> Option<String>>(
    fetch: F,
    store: S,
    v: RoundView,
    batch: Seq<PushFileView>,
    results: Seq<PushResultView>,
    n: int,
    after: RoundView,
)
    requires
        answers_taken(fetch, store, v, batch, results, n, after),
    ensures
        tells_more(v.report, after.report),
    decreases n,
{
    if n > 0 {
        let mid = choose|mid: RoundView|
            {
                &&& answers_taken(fetch, store, v, batch, results, n - 1, mid)
                &&& #[trigger] answer_taken(fetch, store, mid, batch, results[n - 1], after)
            };
        lemma_answers_tell_more(fetch, store, v, batch, results, n - 1, mid);
        lemma_answer_tells_more(fetch, store, mid, batch, results[n - 1], after);
    }
}

/// Every answer to a push is taken in: a refusal is told as an error, and what was
/// accepted counts as pushed, or as pulled where the server's version was taken
/// over, or its fault is told.
pub proof fn law_every_answer_is_taken_in<F: Fn(&Vec<String>) -> Fetched, S: Fn(&PullFile) -> Option<String>>(
    fetch: F,
    store: S,
    v: RoundView,
    batch: Seq<PushFileView>,
    results: Seq<PushResultView>,
    n: int,
    after: RoundView,
    i: int,
)
    requires
        answers_taken(fetch, store, v, batch, results, n, after),
        0 <= i < n <= results.len(),
        exists|k: int| 0 <= k < batch.len() && (#[trigger] batch[k]).path == results[i].path,
    ensures
        !results[i].ok ==> after.report.errors.len() > v.report.errors.len(),
        results[i].ok ==> after.report.pushed.contains(results[i].path) || after.report.pulled.contains(
            results[i].path,
        ) || after.report.errors.len() > v.report.errors.len(),
    decreases n,
{
    let mid = choose|mid: RoundView|
        {
            &&& answers_taken(fetch, store, v, batch, results, n - 1, mid)
            &&& #[trigger] answer_taken(fetch, store, mid, batch, results[n - 1], after)
        };
    lemma_answers_tell_more(fetch, store, v, batch, results, n - 1, mid);
    lemma_answer_tells_more(fetch, store, mid, batch, results[n - 1], after);
    if i < n - 1 {
        law_every_answer_is_taken_in(fetch, store, v, batch, results, n - 1, mid, i);
        if mid.report.pushed.contains(results[i].path) {
            lemma_goes_on_has(mid.report.pushed, after.report.pushed, results[i].path);
        }
        if mid.report.pulled.contains(results[i].path) {
            lemma_goes_on_has(mid.report.pulled, after.report.pulled, results[i].path);
        }
    }
}

proof fn lemma_conflict_goes_on<
    F: Fn(&Vec<String>) -> Fetched,
    R: Fn(&String) -> Result<Vec<u8>, String>,
    C: Fn(&String, &String, &Vec<u8>) -> Result<String, String>,
    S: Fn(&PullFile) -> Option<String>,
>(fetch: F, read: R, copy: C, store: S, v: RoundView, conflicts: Seq<(Seq<char>, Seq<char>)>, n: int, after: RoundView)
    requires
        conflicts_settled(fetch, read, copy, store, v, conflicts, n, after),
    ensures
        goes_on(v.to_pull, after.to_pull),
        goes_on(v.to_push, after.to_push),
    decreases n,
{
    if n > 0 {
        let mid = choose|mid: RoundView|
            {
                &&& conflicts_settled(fetch, read, copy, store, v, conflicts, n - 1, mid)
                &&& #[trigger] conflict_settled(fetch, read, copy, store, mid, conflicts[n - 1].0, after)
            };
        lemma_conflict_goes_on(fetch, read, copy, store, v, conflicts, n - 1, mid);
        let path = conflicts[n - 1].0;
        let begun = exchange::conflict_begun(mid, path);
        if !(begun.1 is Done) {
            let got = choose|got: Fetched| #[trigger]
                fetched_as(fetch, seq![path], got) && step_taken(
                    read,
                    copy,
                    store,
                    exchange::conflict_met(mid, path, got).0,
                    path,
                    exchange::conflict_met(mid, path, got).1,
                    after,
                );
            let met = exchange::conflict_met(mid, path, got);
            match met.1 {
                ConflictStepView::KeepServer(f) => {
                    let o = choose|o: ServerKept| #[trigger]
                        kept_server(read, copy, store, path, met.0.local[path].kind, f, o) && after
                            == exchange::server_kept(met.0, path, f, o);
                    assert(after.to_pull == mid.to_pull && after.to_push == mid.to_push);
                },
                ConflictStepView::KeepLocal(kind, bytes) => {
                    let saved = choose|saved: Result<String, String>| #[trigger]
                        copied(copy, path, kind, bytes, saved) && after == exchange::local_kept(
                            met.0,
                            path,
                            saved,
                        );
                    assert(after.to_pull == mid.to_pull);
                },
                _ => {},
            }
        }
    }
}

/// A round that ends well has done all that it planned at its start, but for what
/// deletions took out of the plan: each path to pull was asked for, each file to
/// push was read and, where that went well, pushed, and each conflict was met.
pub proof fn law_round_does_all_it_planned<
    A: Fn(&DiskStep) -> Option<String>,
    X: Fn(&Vec<String>) -> Result<Vec<PushResult>, String>,
    F: Fn(&Vec<String>) -> Fetched + Copy,
    R: Fn(&String) -> Result<Vec<u8>, String>,
    C: Fn(&String, &String, &Vec<u8>) -> Result<String, String>,
    S: Fn(&PullFile) -> Option<String> + Copy,
    L: Fn(&String) -> Option<(Vec<u8>, i64)>,
    P: Fn(&Vec<PushFile>) -> Result<Vec<PushResult>, String>,
>(
    core: RoundCore,
    act: A,
    delete: X,
    fetch: F,
    read: R,
    copy: C,
    store: S,
    load: L,
    push: P,
    r: RoundEnd,
    p: Seq<char>,
    h: Seq<char>,
)
    requires
        call_ensures(
            sync_round::<A, X, F, R, C, S, L, P>,
            (core, act, delete, fetch, read, copy, store, load, push),
            r,
        ),
        r is Ok,
        round::distinct_paths(core@.server_tombstones),
        forall|i: int| 0 <= i < core@.server_tombstones.len() ==> (#[trigger] core@.server_tombstones[i]).path != p,
        forall|i: int| 0 <= i < core@.local_tombstones.len() ==> (#[trigger] core@.local_tombstones[i]).path != p,
    ensures
        core@.to_pull.contains(p) ==> asked_for(fetch, p),
        core@.to_push.contains((p, h)) && core@.local.dom().contains(p) ==> exists|made: Option<PushFileView>|
            {
                &&& #[trigger] read_for_push(load, p, core@.local[p].kind, h, made)
                &&& made matches Some(f) ==> was_pushed(push, f)
            },
        core@.conflicts.contains((p, h)) && core@.local.dom().contains(p) && core@.server.dom().contains(p)
            ==> exists|list: Vec<String>, got: Fetched| #[trigger]
            call_ensures(fetch, (&list,), got) && text::views(list@) == seq![p],
{
    let v = core@;
    let start = RoundView { server_tombstones: Seq::empty(), ..v };
    let sent = v.server_tombstones;
    let (u, steps) = server_looked(v);
    let (w, paths, more) = local_looked(u);
    let own = RoundView { local_tombstones: Seq::empty(), ..u };
    let list = u.local_tombstones;
    let none = sync::TombstoneView { path: p, hash: h, mtime_ms: 0, deleted_at: 0 };
    round::law_what_outlives_its_deletion_is_pushed(start, sent, sent.len() as int, p, h);
    round::law_server_deletions_do_what_they_say(start, sent, sent.len() as int, p, none);
    assert forall|i: int| 0 <= i < list.len() implies (#[trigger] list[i]).path != p by {
        let t = list[i];
        assert(list.contains(t));
        round::law_tombstones_of_both_sides_are_merged(start, sent, sent.len() as int, t);
        if t.path == p {
            if v.local_tombstones.contains(t) {
                let k = choose|k: int| 0 <= k < v.local_tombstones.len() && v.local_tombstones[k] == t;
                assert(v.local_tombstones[k].path != p);
            } else {
                let k = choose|k: int|
                    0 <= k < sent.len() && #[trigger] sent[k] == t && !start.server.dom().contains(t.path)
                        && !round::survives(start, t);
                assert(sent[k].path != p);
            }
        }
    }
    round::law_own_deletions_do_what_they_say(own, list, list.len() as int, p, none);
    assert(!paths.contains(p));
    let x = lemma_round_reaches_conflicts(act, delete, fetch, read, copy, store, load, push, v, r);
    let y = choose|after: RoundView|
        {
            &&& #[trigger] conflicts_settled(
                fetch,
                read,
                copy,
                store,
                x,
                x.conflicts,
                x.conflicts.len() as int,
                after,
            )
            &&& ends_from_pulls(load, push, fetch, store, after, r)
        };
    lemma_conflict_goes_on(fetch, read, copy, store, x, x.conflicts, x.conflicts.len() as int, y);
    law_every_conflict_is_met(fetch, read, copy, store, x, x.conflicts, x.conflicts.len() as int, y, -1);
    let z = choose|after: RoundView|
        {
            &&& #[trigger] pulled_to(
                fetch,
                store,
                y,
                batches(y.to_pull.len(), PULL_BATCH as int),
                after,
            )
            &&& ends_from_pushes(load, push, fetch, store, after, r)
        };
    lemma_pulls_keep(fetch, store, y, batches(y.to_pull.len(), PULL_BATCH as int), z, -1);
    let done = choose|after: RoundView| #[trigger] push_end(load, push, fetch, store, z, after, r);
    if v.to_pull.contains(p) {
        assert(x.to_pull.contains(p));
        lemma_goes_on_has(x.to_pull, y.to_pull, p);
        let i = choose|i: int| 0 <= i < y.to_pull.len() && y.to_pull[i] == p;
        law_every_pull_is_asked_for(fetch, store, y, z, i);
    }
    if v.to_push.contains((p, h)) && v.local.dom().contains(p) {
        assert(x.to_push.contains((p, h)));
        lemma_goes_on_has(x.to_push, y.to_push, (p, h));
        let i = choose|i: int| 0 <= i < z.to_push.len() && z.to_push[i] == (p, h);
        law_every_push_is_sent(load, push, fetch, store, z, done, i);
    }
    if v.conflicts.contains((p, h)) {
        let i = choose|i: int| 0 <= i < x.conflicts.len() && x.conflicts[i] == (p, h);
        law_every_conflict_is_met(fetch, read, copy, store, x, x.conflicts, x.conflicts.len() as int, y, i);
    }
}

proof fn lemma_round_reaches_conflicts<
    A: Fn(&DiskStep) -> Option<String>,
    X: Fn(&Vec<String>) -> Result<Vec<PushResult>, String>,
    F: Fn(&Vec<String>) -> Fetched,
    R: Fn(&String) -> Result<Vec<u8>, String>,
    C: Fn(&String, &String, &Vec<u8>) -> Result<String, String>,
    S: Fn(&PullFile) -> Option<String>,
    L: Fn(&String) -> Option<(Vec<u8>, i64)>,
    P: Fn(&Vec<PushFile>) -> Result<Vec<PushResult>, String>,
>(
    act: A,
    delete: X,
    fetch: F,
    read: R,
    copy: C,
    store: S,
    load: L,
    push: P,
    v: RoundView,
    r: RoundEnd,
) -> (x: RoundView)
    requires
        round_ends(act, delete, fetch, read, copy, store, load, push, v, r),
        r is Ok,
    ensures
        ends_from_conflicts(fetch, read, copy, store, load, push, x, r),
        ({
            let w = local_looked(server_looked(v).0).0;
            &&& x.to_pull == w.to_pull
            &&& x.to_push == w.to_push
            &&& x.conflicts == w.conflicts
            &&& same_sides(w, x)
        }),
{
    let (w, paths, more) = local_looked(server_looked(v).0);
    if paths.len() == 0 {
        w
    } else {
        let got = choose|got: Result<Vec<PushResult>, String>| #[trigger]
            deleted_as(delete, paths, got) && match got {
                Err(e) => r == Err::<(StrMap<String>, SyncReport), String>(e),
                Ok(results) => ends_from_conflicts(
                    fetch,
                    read,
                    copy,
                    store,
                    load,
                    push,
                    after_deletes(w, text::views(results@)),
                    r,
                ),
            };
        after_deletes(w, text::views(got->Ok_0@))
    }
}

// ---------- what a conflict does ----------

/// Whether a version was kept as a copy beside its path, under the name `name`.
pub open spec fn copied_to<C: Fn(&String, &String, &Vec<u8>) -> Result<String, String>>(
    copy: C,
    path: Seq<char>,
    bytes: Seq<u8>,
    name: Seq<char>,
) -> bool {
    exists|p: String, k: String, b: Vec<u8>, saved: String|
        {
            &&& #[trigger] call_ensures(copy, (&p, &k, &b), Ok(saved))
            &&& p@ == path
            &&& b@ == bytes
            &&& saved@ == name
        }
}

/// Whether the local version of a path was read as these bytes.
pub open spec fn was_read<R: Fn(&String) -> Result<Vec<u8>, String>>(read: R, path: Seq<char>, bytes: Seq<u8>) -> bool {
    exists|p: String, b: Vec<u8>| #[trigger] call_ensures(read, (&p,), Ok(b)) && p@ == path && b@ == bytes
}

/// Whether the server sent this file when it was asked for the path alone.
pub open spec fn was_sent<F: Fn(&Vec<String>) -> Fetched>(fetch: F, path: Seq<char>, f: PullFileView) -> bool {
    exists|list: Vec<String>, files: Vec<PullFile>, missing: Vec<(String, String)>|
        {
            &&& #[trigger] call_ensures(fetch, (&list,), Ok((files, missing)))
            &&& text::views(list@) == seq![path]
            &&& files@.len() > 0
            &&& files@[0]@ == f
        }
}

/// Where a conflict is told as merged, both versions are there: the one that lost
/// in the copy that is named, with its own bytes, and the one that won at the
/// path, or on its way to the server. The server's wins exactly if it is later.
pub proof fn law_merged_versions_are_both_there<
    F: Fn(&Vec<String>) -> Fetched,
    R: Fn(&String) -> Result<Vec<u8>, String>,
    C: Fn(&String, &String, &Vec<u8>) -> Result<String, String>,
    S: Fn(&PullFile) -> Option<String>,
>(fetch: F, read: R, copy: C, store: S, v: RoundView, path: Seq<char>, after: RoundView)
    requires
        conflict_settled(fetch, read, copy, store, v, path, after),
        after.report.merges != v.report.merges,
    ensures
        ({
            let m = after.report.merges.last();
            if exchange::is_later(v.server[path], v.local[path]) {
                &&& m.winner == "server"@
                &&& exists|bytes: Seq<u8>| #[trigger]
                    was_read(read, path, bytes) && copied_to(copy, path, bytes, m.loser_copy)
                &&& exists|f: PullFile| #[trigger]
                    call_ensures(store, (&f,), None::<String>) && was_sent(fetch, path, f@) && after.baseline[path]
                        == f@.hash
            } else {
                &&& m.winner == "local"@
                &&& exists|f: PullFileView| #[trigger]
                    was_sent(fetch, path, f) && crate::digest::base64_decoded(f.content_base64) is Ok && copied_to(
                        copy,
                        path,
                        crate::digest::base64_decoded(f.content_base64)->Ok_0,
                        m.loser_copy,
                    )
                &&& after.to_push.last() == (path, v.server[path].hash)
            }
        }),
{
    let begun = exchange::conflict_begun(v, path);
    assert(!(begun.1 is Done));
    let got = choose|got: Fetched| #[trigger]
        fetched_as(fetch, seq![path], got) && step_taken(
            read,
            copy,
            store,
            exchange::conflict_met(v, path, got).0,
            path,
            exchange::conflict_met(v, path, got).1,
            after,
        );
    let (met, step) = exchange::conflict_met(v, path, got);
    let list = choose|list: Vec<String>| #[trigger]
        call_ensures(fetch, (&list,), got) && text::views(list@) == seq![path];
    match step {
        ConflictStepView::KeepServer(f) => {
            let o = choose|o: ServerKept| #[trigger]
                kept_server(read, copy, store, path, met.local[path].kind, f, o) && after
                    == exchange::server_kept(met, path, f, o);
            match o {
                ServerKept::Copied(c, stored) => {
                    assert(stored is None);
                    let b = choose|b: Vec<u8>| #[trigger]
                        read_as(read, path, Ok(b)) && copied(copy, path, met.local[path].kind, b@, Ok(c));
                    let q = choose|q: String| #[trigger] call_ensures(read, (&q,), Ok(b)) && q@ == path;
                    assert(call_ensures(read, (&q,), Ok(b)));
                    assert(was_read(read, path, b@));
                    let (p, k, x) = choose|p: String, k: String, x: Vec<u8>|
                        {
                            &&& #[trigger] call_ensures(copy, (&p, &k, &x), Ok(c))
                            &&& p@ == path
                            &&& k@ == met.local[path].kind
                            &&& x@ == b@
                        };
                    assert(call_ensures(copy, (&p, &k, &x), Ok(c)));
                    assert(copied_to(copy, path, b@, c@));
                    let file = choose|file: PullFile| #[trigger]
                        call_ensures(store, (&file,), stored) && file@ == f;
                    assert(call_ensures(store, (&file,), None::<String>));
                    match got {
                        Ok((files, missing)) => {
                            assert(call_ensures(fetch, (&list,), Ok((files, missing))));
                            assert(was_sent(fetch, path, f));
                        },
                        Err(_) => {},
                    }
                },
                _ => {},
            }
        },
        ConflictStepView::KeepLocal(kind, bytes) => {
            let saved = choose|saved: Result<String, String>| #[trigger]
                copied(copy, path, kind, bytes, saved) && after == exchange::local_kept(met, path, saved);
            match saved {
                Ok(c) => {
                    let (p, k, x) = choose|p: String, k: String, x: Vec<u8>|
                        {
                            &&& #[trigger] call_ensures(copy, (&p, &k, &x), Ok(c))
                            &&& p@ == path
                            &&& k@ == kind
                            &&& x@ == bytes
                        };
                    assert(call_ensures(copy, (&p, &k, &x), Ok(c)));
                    assert(copied_to(copy, path, bytes, c@));
                    match got {
                        Ok((files, missing)) => {
                            assert(call_ensures(fetch, (&list,), Ok((files, missing))));
                            assert(was_sent(fetch, path, files@[0]@));
                        },
                        Err(_) => {},
                    }
                },
                Err(_) => {},
            }
        },
        _ => {},
    }
}

/// A conflict needs no more leave than this: the server's version is asked for;
/// where that wins, the local one is read, then kept as a copy, and only then is
/// the server's stored; where this side wins, the server's version is kept as a
/// copy and nothing is stored. So no local version is written over before it is
/// kept.
pub proof fn law_conflicts_destroy_nothing_unkept<
    F: Fn(&Vec<String>) -> Fetched,
    R: Fn(&String) -> Result<Vec<u8>, String>,
    C: Fn(&String, &String, &Vec<u8>) -> Result<String, String>,
    S: Fn(&PullFile) -> Option<String>,
>(fetch: F, read: R, copy: C, store: S, path: Seq<char>, kind: Seq<char>, server_wins: bool)
    requires
        forall|l: &Vec<String>| text::views(l@) == seq![path] ==> #[trigger] call_requires(fetch, (l,)),
        forall|p: &String| server_wins && p@ == path ==> #[trigger] call_requires(read, (p,)),
        forall|p: &String, k: &String, b: &Vec<u8>|
            {
                &&& p@ == path
                &&& if server_wins {
                    k@ == kind && was_read(read, path, b@)
                } else {
                    exists|f: PullFileView| #[trigger]
                        was_sent(fetch, path, f) && k@ == f.kind && crate::digest::base64_decoded(f.content_base64)
                            == crate::digest::bytes_ok(b@)
                }
            } ==> #[trigger] call_requires(copy, (p, k, b)),
        forall|f: &PullFile, bytes: Seq<u8>, name: Seq<char>|
            {
                &&& server_wins
                &&& was_sent(fetch, path, f@)
                &&& #[trigger] was_read(read, path, bytes)
                &&& #[trigger] copied_to(copy, path, bytes, name)
            } ==> #[trigger] call_requires(store, (f,)),
    ensures
        path_leave(fetch, read, copy, store, path, kind, server_wins),
{
    assert forall|p: &String, k: &String, b: &Vec<u8>, got: Fetched|
        {
            &&& p@ == path
            &&& #[trigger] fetched_as(fetch, seq![path], got)
            &&& may_copy(read, path, kind, exchange::conflict_choice(server_wins, got), k@, *b)
        } implies #[trigger] call_requires(copy, (p, k, b)) by {
        match exchange::conflict_choice(server_wins, got) {
            ConflictStepView::KeepServer(_) => {
                let q = choose|q: String| #[trigger] call_ensures(read, (&q,), Ok(*b)) && q@ == path;
                assert(call_ensures(read, (&q,), Ok(*b)));
                assert(was_read(read, path, b@));
            },
            ConflictStepView::KeepLocal(kk, bb) => {
                lemma_sent(fetch, path, got);
                match got {
                    Ok((files, missing)) => {
                        assert(was_sent(fetch, path, files@[0]@));
                    },
                    Err(_) => {},
                }
            },
            _ => {},
        }
    }
    assert forall|f: &PullFile, got: Fetched, b: Vec<u8>, c: String|
        {
            &&& #[trigger] fetched_as(fetch, seq![path], got)
            &&& exchange::conflict_choice(server_wins, got) == ConflictStepView::KeepServer(f@)
            &&& #[trigger] read_as(read, path, Ok(b))
            &&& #[trigger] copied(copy, path, kind, b@, Ok(c))
        } implies #[trigger] call_requires(store, (f,)) by {
        lemma_sent(fetch, path, got);
        let q = choose|q: String| #[trigger] call_ensures(read, (&q,), Ok(b)) && q@ == path;
        assert(call_ensures(read, (&q,), Ok(b)));
        assert(was_read(read, path, b@));
        let (p, k, x) = choose|p: String, k: String, x: Vec<u8>|
            {
                &&& #[trigger] call_ensures(copy, (&p, &k, &x), Ok(c))
                &&& p@ == path
                &&& k@ == kind
                &&& x@ == b@
            };
        assert(call_ensures(copy, (&p, &k, &x), Ok(c)));
        assert(copied_to(copy, path, b@, c@));
    }
}

proof fn lemma_sent<F: Fn(&Vec<String>) -> Fetched>(fetch: F, path: Seq<char>, got: Fetched)
    requires
        fetched_as(fetch, seq![path], got),
    ensures
        got matches Ok((files, missing)) ==> files@.len() > 0 ==> was_sent(fetch, path, files@[0]@),
{
    let list = choose|list: Vec<String>| #[trigger]
        call_ensures(fetch, (&list,), got) && text::views(list@) == seq![path];
    match got {
        Ok((files, missing)) => {
            assert(call_ensures(fetch, (&list,), Ok((files, missing))));
        },
        Err(_) => {},
    }
}

/// A file that cannot be read to be pushed is told as an error, and nothing of it
/// is sent; what this side does not list is passed over.
pub proof fn law_unreadable_files_are_told<R: Fn(&String) -> Option<(Vec<u8>, i64)>>(
    read: R,
    v: RoundView,
    item: (Seq<char>, Seq<char>),
    after: RoundView,
    made: Option<PushFileView>,
)
    requires
        exchange::one_prepared(read, v, item, after, made),
    ensures
        v.local.dom().contains(item.0) && made is None ==> after.report.errors.len() == v.report.errors.len() + 1,
        made is Some || !v.local.dom().contains(item.0) ==> after == v,
        v.local.dom().contains(item.0) ==> read_for_push(read, item.0, v.local[item.0].kind, item.1, made),
        !v.local.dom().contains(item.0) ==> made is None,
{
    if v.local.dom().contains(item.0) {
        let (p, got) = choose|p: String, got: Option<(Vec<u8>, i64)>|
            {
                &&& #[trigger] call_ensures(read, (&p,), got)
                &&& p@ == item.0
                &&& (after, made) == exchange::prepared(v, item.0, item.1, exchange::read_bytes(got))
            };
        assert(call_ensures(read, (&p,), got));
    }
}

/// A pull phase that breaks off does so because a batch of paths that were to be
/// pulled could not be had, and says why; a push phase because a batch could not
/// be sent.
pub proof fn law_phases_break_off_where_the_server_fails<
    R: Fn(&String) -> Option<(Vec<u8>, i64)>,
    P: Fn(&Vec<PushFile>) -> Result<Vec<PushResult>, String>,
    F: Fn(&Vec<String>) -> Fetched,
    S: Fn(&PullFile) -> Option<String>,
>(read: R, push: P, fetch: F, store: S, v: RoundView, after: RoundView, e: String)
    ensures
        pull_broke(fetch, store, v, after, e) ==> exists|list: Vec<String>|
            {
                &&& #[trigger] call_ensures(fetch, (&list,), Err(e))
                &&& 0 < list@.len() <= 32
                &&& forall|i: int| 0 <= i < list@.len() ==> v.to_pull.contains((#[trigger] list@[i])@)
            },
        push_broke(read, push, fetch, store, v, after, e) ==> exists|list: Vec<PushFile>| #[trigger]
            call_ensures(push, (&list,), Err(e)) && 0 < list@.len() <= 8,
{
    if pull_broke(fetch, store, v, after, e) {
        let n = choose|n: int| #[trigger] pull_failed(fetch, store, v, n, after, e);
        let paths = exchange::batch_of(v.to_pull, PULL_BATCH * n, PULL_BATCH as int);
        let list = choose|list: Vec<String>| #[trigger]
            call_ensures(fetch, (&list,), Err(e)) && text::views(list@) == paths;
        assert(call_ensures(fetch, (&list,), Err(e)));
        assert(text::views(list@).len() == list@.len());
        assert forall|i: int| 0 <= i < list@.len() implies v.to_pull.contains((#[trigger] list@[i])@) by {
            assert(text::views(list@)[i] == list@[i]@);
            assert(paths[i] == v.to_pull[PULL_BATCH * n + i]);
        }
    }
    if push_broke(read, push, fetch, store, v, after, e) {
        let (n, mid, batch) = choose|n: int, mid: RoundView, batch: Seq<PushFileView>| #[trigger]
            push_failed(read, push, fetch, store, v, n, mid, batch, after, e);
        let items = exchange::batch_of(v.to_push, PUSH_BATCH * n, PUSH_BATCH as int);
        lemma_prepared_keep_sides(read, mid, items, items.len() as int, after, batch);
        let list = choose|list: Vec<PushFile>| #[trigger]
            call_ensures(push, (&list,), Err(e)) && text::views(list@) == batch;
        assert(call_ensures(push, (&list,), Err(e)));
        assert(text::views(list@).len() == list@.len());
    }
}

} // verus!
