//! One sync round of a client, step by step: what it decides between its looks
//! at the disk and its calls to the server.
use vstd::prelude::*;

use crate::strmap::StrMap;
use crate::sync;
use crate::sync::{clear_tombstone, upsert_tombstone, version_gt};
use crate::sync::{FileMeta, FileMetaView, PushResult, SyncReport, SyncReportView, Tombstone, TombstoneView};
use crate::sync_server;
use crate::sync_server::manifest_map;
use crate::text;
use crate::text::{concat4, same};

verus! {

/// A round under way.
pub struct RoundCore {
    pub server_map: StrMap<FileMeta>,
    pub local_map: StrMap<FileMeta>,
    /// The deletions that the server knows and the round has not looked at.
    pub server_tombstones: Vec<Tombstone>,
    /// The deletions that this side knows.
    pub local_tombstones: Vec<Tombstone>,
    /// The paths to pull.
    pub to_pull: Vec<String>,
    /// The paths to push, each with the hash of the server's version that this
    /// side has seen.
    pub to_push: Vec<(String, String)>,
    /// The paths that both sides changed, each with the server's hash.
    pub conflicts: Vec<(String, String)>,
    /// The hashes of the server's files as the round leaves them.
    pub baseline: StrMap<String>,
    pub report: SyncReport,
}

pub struct RoundView {
    pub server: Map<Seq<char>, FileMetaView>,
    pub local: Map<Seq<char>, FileMetaView>,
    pub server_tombstones: Seq<TombstoneView>,
    pub local_tombstones: Seq<TombstoneView>,
    pub to_pull: Seq<Seq<char>>,
    pub to_push: Seq<(Seq<char>, Seq<char>)>,
    pub conflicts: Seq<(Seq<char>, Seq<char>)>,
    pub baseline: Map<Seq<char>, Seq<char>>,
    pub report: SyncReportView,
}

impl View for RoundCore {
    type V = RoundView;

    open spec fn view(&self) -> RoundView {
        RoundView {
            server: self.server_map@,
            local: self.local_map@,
            server_tombstones: text::views(self.server_tombstones@),
            local_tombstones: text::views(self.local_tombstones@),
            to_pull: text::views(self.to_pull@),
            to_push: text::views(self.to_push@),
            conflicts: text::views(self.conflicts@),
            baseline: self.baseline@,
            report: self.report@,
        }
    }
}

// ---------- the start of a round ----------

/// What a round does about a path.
pub enum Class {
    /// Nobody has it.
    Absent,
    /// Both sides agree.
    Skip,
    /// The server's version is taken over.
    Pull,
    /// This side's version is sent; the server is known to have the given hash.
    Push(Seq<char>),
    /// Both sides changed it; the server has the given hash.
    Conflict(Seq<char>),
}

/// What a round does about a path, by the manifests of both sides and the
/// hashes that the last round left on the server.
pub open spec fn class_of(
    server: Map<Seq<char>, FileMetaView>,
    local: Map<Seq<char>, FileMetaView>,
    base: Map<Seq<char>, Seq<char>>,
    path: Seq<char>,
) -> Class {
    if server.dom().contains(path) {
        if !local.dom().contains(path) {
            Class::Pull
        } else if local[path].hash == server[path].hash {
            Class::Skip
        } else if base.dom().contains(path) && base[path] == local[path].hash {
            Class::Pull
        } else if base.dom().contains(path) && base[path] == server[path].hash {
            Class::Push(server[path].hash)
        } else {
            Class::Conflict(server[path].hash)
        }
    } else if local.dom().contains(path) {
        Class::Push(Seq::empty())
    } else {
        Class::Absent
    }
}

/// The paths of `keys` to pull.
pub open spec fn pulls(
    server: Map<Seq<char>, FileMetaView>,
    local: Map<Seq<char>, FileMetaView>,
    base: Map<Seq<char>, Seq<char>>,
    keys: Seq<Seq<char>>,
) -> Seq<Seq<char>> {
    keys.filter(|p: Seq<char>| class_of(server, local, base, p) is Pull)
}

/// The paths of `keys` on which both sides agree.
pub open spec fn skips(
    server: Map<Seq<char>, FileMetaView>,
    local: Map<Seq<char>, FileMetaView>,
    base: Map<Seq<char>, Seq<char>>,
    keys: Seq<Seq<char>>,
) -> Seq<Seq<char>> {
    keys.filter(|p: Seq<char>| class_of(server, local, base, p) is Skip)
}

/// The paths of `keys` to push, each with the hash that the server has.
pub open spec fn pushes(
    server: Map<Seq<char>, FileMetaView>,
    local: Map<Seq<char>, FileMetaView>,
    base: Map<Seq<char>, Seq<char>>,
    keys: Seq<Seq<char>>,
) -> Seq<(Seq<char>, Seq<char>)> {
    keys.filter_map(
        |p: Seq<char>|
            match class_of(server, local, base, p) {
                Class::Push(h) => Some((p, h)),
                _ => None,
            },
    )
}

/// The paths of `keys` that both sides changed, each with the server's hash.
pub open spec fn clashes(
    server: Map<Seq<char>, FileMetaView>,
    local: Map<Seq<char>, FileMetaView>,
    base: Map<Seq<char>, Seq<char>>,
    keys: Seq<Seq<char>>,
) -> Seq<(Seq<char>, Seq<char>)> {
    keys.filter_map(
        |p: Seq<char>|
            match class_of(server, local, base, p) {
                Class::Conflict(h) => Some((p, h)),
                _ => None,
            },
    )
}

/// The keys of this side that the server lacks.
pub open spec fn only_local(
    server: Map<Seq<char>, FileMetaView>,
    keys: Seq<Seq<char>>,
) -> Seq<Seq<char>> {
    keys.filter(|p: Seq<char>| !server.dom().contains(p))
}

/// The hashes of the server's files.
pub open spec fn hashes_of(server: Map<Seq<char>, FileMetaView>) -> Map<Seq<char>, Seq<char>> {
    server.map_values(|m: FileMetaView| m.hash)
}

impl RoundCore {
    /// The maps are in order.
    pub open spec fn wf(self) -> bool {
        self.server_map.wf() && self.local_map.wf() && self.baseline.wf()
    }

    /// Sorts the paths of both sides into what is to be done about them. The
    /// baseline starts as what the server has.
    pub fn new(
        server_manifest: &Vec<FileMeta>,
        local_manifest: &Vec<FileMeta>,
        base_prev: &StrMap<String>,
        server_tombstones: Vec<Tombstone>,
        local_tombstones: Vec<Tombstone>,
    ) -> (r: Self)
        requires
            base_prev.wf(),
        ensures
            r.wf(),
            r@.server == sync_server::by_path(text::views(server_manifest@)),
            r@.local == sync_server::by_path(text::views(local_manifest@)),
            r@.server_tombstones == text::views(server_tombstones@),
            r@.local_tombstones == text::views(local_tombstones@),
            r@.to_pull == pulls(r@.server, r@.local, base_prev@, r.server_map.keys()),
            r@.to_push == pushes(r@.server, r@.local, base_prev@, r.server_map.keys())
                + only_local(r@.server, r.local_map.keys()).map_values(
                |p: Seq<char>| (p, Seq::<char>::empty()),
            ),
            r@.conflicts == clashes(r@.server, r@.local, base_prev@, r.server_map.keys()),
            r@.baseline == hashes_of(r@.server),
            r@.report == (SyncReportView {
                skipped: skips(r@.server, r@.local, base_prev@, r.server_map.keys()).len(),
                ..SyncReportView::blank()
            }),
    {
        let server_map = manifest_map(server_manifest);
        let local_map = manifest_map(local_manifest);
        let ghost server = server_map@;
        let ghost local = local_map@;
        let ghost base = base_prev@;
        let ghost keys = server_map.keys();
        let ghost is_pull = |p: Seq<char>| class_of(server, local, base, p) is Pull;
        let ghost is_skip = |p: Seq<char>| class_of(server, local, base, p) is Skip;
        let ghost push_of = |p: Seq<char>|
            match class_of(server, local, base, p) {
                Class::Push(h) => Some((p, h)),
                _ => None,
            };
        let ghost clash_of = |p: Seq<char>|
            match class_of(server, local, base, p) {
                Class::Conflict(h) => Some((p, h)),
                _ => None,
            };
        let mut report = SyncReport::default();
        let mut to_pull: Vec<String> = Vec::new();
        let mut to_push: Vec<(String, String)> = Vec::new();
        let mut conflicts: Vec<(String, String)> = Vec::new();
        let mut baseline: StrMap<String> = StrMap::new();
        let n = server_map.len();
        let mut i: usize = 0;
        proof {
            server_map.lemma_keys();
            reveal(Seq::filter);
            reveal(Seq::filter_map);
            assert(keys.take(0) =~= Seq::empty());
            assert(text::views(to_pull@) =~= Seq::empty());
            assert(text::views(to_push@) =~= Seq::empty());
            assert(text::views(conflicts@) =~= Seq::empty());
        }
        while i < n
            invariant
                i <= n,
                n == keys.len(),
                server_map.wf(),
                local_map.wf(),
                baseline.wf(),
                base_prev.wf(),
                server == server_map@,
                local == local_map@,
                base == base_prev@,
                keys == server_map.keys(),
                is_pull == (|p: Seq<char>| class_of(server, local, base, p) is Pull),
                is_skip == (|p: Seq<char>| class_of(server, local, base, p) is Skip),
                push_of == (|p: Seq<char>|
                    match class_of(server, local, base, p) {
                        Class::Push(h) => Some((p, h)),
                        _ => None,
                    }),
                clash_of == (|p: Seq<char>|
                    match class_of(server, local, base, p) {
                        Class::Conflict(h) => Some((p, h)),
                        _ => None,
                    }),
                text::views(to_pull@) == keys.take(i as int).filter(is_pull),
                text::views(to_push@) == keys.take(i as int).filter_map(push_of),
                text::views(conflicts@) == keys.take(i as int).filter_map(clash_of),
                report.skipped == keys.take(i as int).filter(is_skip).len(),
                report.skipped <= i,
                report@ == (SyncReportView {
                    skipped: report.skipped as nat,
                    ..SyncReportView::blank()
                }),
                forall|k: Seq<char>| #[trigger]
                    baseline@.dom().contains(k) <==> keys.take(i as int).contains(k),
                forall|k: Seq<char>| #[trigger]
                    baseline@.dom().contains(k) ==> server.dom().contains(k) && baseline@[k]
                        == server[k].hash,
            decreases n - i,
        {
            broadcast use text::lemma_views_push;
            let path = server_map.key_at(i);
            let sm = server_map.value_at(i);
            let ghost seen = keys.take(i as int);
            let ghost next = keys.take(i + 1);
            proof {
                assert(keys[i as int] == path@);
                assert(next =~= seen.push(path@));
                seen.lemma_filter_push(path@, is_pull);
                seen.lemma_filter_push(path@, is_skip);
                keys.lemma_filter_map_take_succ(push_of, i as int);
                keys.lemma_filter_map_take_succ(clash_of, i as int);
            }
            match local_map.get(path.as_str()) {
                None => {
                    to_pull.push(path.clone());
                },
                Some(lm) => {
                    if same(lm.hash.as_str(), sm.hash.as_str()) {
                        report.skipped = report.skipped + 1;
                    } else {
                        let (is_local, is_server): (bool, bool) = match base_prev.get(path.as_str()) {
                            Some(b) => (
                                same(b.as_str(), lm.hash.as_str()),
                                same(b.as_str(), sm.hash.as_str()),
                            ),
                            None => (false, false),
                        };
                        if is_local {
                            to_pull.push(path.clone());
                        } else if is_server {
                            to_push.push((path.clone(), sm.hash.clone()));
                        } else {
                            conflicts.push((path.clone(), sm.hash.clone()));
                        }
                    }
                },
            }
            let ghost before = baseline@;
            baseline.insert(path.clone(), sm.hash.clone());
            proof {
                assert forall|k: Seq<char>| #[trigger]
                    baseline@.dom().contains(k) <==> next.contains(k) by {
                    if next.contains(k) {
                        let a = choose|a: int| 0 <= a < next.len() && next[a] == k;
                        if a < seen.len() {
                            assert(seen[a] == k);
                        }
                    }
                    if seen.contains(k) {
                        let a = choose|a: int| 0 <= a < seen.len() && seen[a] == k;
                        assert(next[a] == k);
                    }
                    assert(next[i as int] == path@);
                    assert(before.dom().contains(k) <==> seen.contains(k));
                }
                assert forall|k: Seq<char>| #[trigger] baseline@.dom().contains(k) implies server.dom().contains(k)
                    && baseline@[k] == server[k].hash by {
                    if k != path@ {
                        assert(before.dom().contains(k));
                    }
                }
            }
            i = i + 1;
        }
        proof {
            assert(keys.take(i as int) =~= keys);
            assert forall|k: Seq<char>| #[trigger]
                baseline@.dom().contains(k) <==> hashes_of(server).dom().contains(k) by {
                assert(server.dom().contains(k) <==> keys.contains(k));
            }
            assert(baseline@ =~= hashes_of(server));
        }
        let ghost pushed = text::views(to_push@);
        let ghost mine = local_map.keys();
        let ghost alone = |p: Seq<char>| !server.dom().contains(p);
        let ghost bare = |p: Seq<char>| (p, Seq::<char>::empty());
        let m = local_map.len();
        let mut j: usize = 0;
        proof {
            assert(mine.take(0) =~= Seq::empty());
            assert(pushed + mine.take(0).filter(alone).map_values(bare) =~= pushed);
        }
        while j < m
            invariant
                j <= m,
                m == mine.len(),
                server_map.wf(),
                local_map.wf(),
                server == server_map@,
                mine == local_map.keys(),
                alone == (|p: Seq<char>| !server.dom().contains(p)),
                bare == (|p: Seq<char>| (p, Seq::<char>::empty())),
                text::views(to_push@) == pushed + mine.take(j as int).filter(alone).map_values(bare),
            decreases m - j,
        {
            broadcast use text::lemma_views_push;
            let path = local_map.key_at(j);
            proof {
                let seen = mine.take(j as int);
                assert(mine.take(j + 1) =~= seen.push(path@));
                seen.lemma_filter_push(path@, alone);
            }
            if !server_map.contains_key(path.as_str()) {
                let none = String::new();
                assert(none@ =~= Seq::<char>::empty());
                to_push.push((path.clone(), none));
                proof {
                    let a = mine.take(j as int).filter(alone);
                    assert(a.push(path@).map_values(bare) =~= a.map_values(bare).push(
                        (path@, Seq::<char>::empty()),
                    ));
                    assert(pushed + a.push(path@).map_values(bare) =~= (pushed + a.map_values(
                        bare,
                    )).push((path@, Seq::<char>::empty())));
                }
            }
            j = j + 1;
        }
        assert(mine.take(j as int) =~= mine);
        RoundCore {
            server_map,
            local_map,
            server_tombstones,
            local_tombstones,
            to_pull,
            to_push,
            conflicts,
            baseline,
            report,
        }
    }
}

/// Whether a function gives each path an entry of its own, or none.
spec fn keeps_paths(f: spec_fn(Seq<char>) -> Option<(Seq<char>, Seq<char>)>) -> bool {
    forall|p: Seq<char>| (#[trigger] f(p)) matches Some(x) ==> x.0 == p
}

proof fn lemma_entry_of_key(
    keys: Seq<Seq<char>>,
    f: spec_fn(Seq<char>) -> Option<(Seq<char>, Seq<char>)>,
    x: (Seq<char>, Seq<char>),
)
    requires
        keeps_paths(f),
    ensures
        keys.filter_map(f).contains(x) <==> keys.contains(x.0) && f(x.0) == Some(x),
    decreases keys.len(),
{
    reveal(Seq::filter_map);
    if keys.len() > 0 {
        let rest = keys.drop_last();
        let last = keys.last();
        lemma_entry_of_key(rest, f, x);
        assert(keys =~= rest.push(last));
        let head = rest.filter_map(f);
        if keys.contains(x.0) && f(x.0) == Some(x) {
            if last == x.0 {
                assert((head + seq![x])[head.len() as int] == x);
            } else {
                assert(rest.contains(x.0)) by {
                    let i = choose|i: int| 0 <= i < keys.len() && keys[i] == x.0;
                    assert(rest[i] == x.0);
                }
                let k = choose|k: int| 0 <= k < head.len() && head[k] == x;
                assert(keys.filter_map(f)[k] == x);
            }
        }
        if keys.filter_map(f).contains(x) {
            let k = choose|k: int| 0 <= k < keys.filter_map(f).len() && keys.filter_map(f)[k] == x;
            if k < head.len() {
                assert(head[k] == x);
                let i = choose|i: int| 0 <= i < rest.len() && rest[i] == x.0;
                assert(keys[i] == x.0);
            } else {
                assert(f(last) == Some(x));
                assert(keys[keys.len() - 1] == x.0);
            }
        }
    }
}

/// The class of a path is what the round plans for it: it is pulled, pushed
/// with the hash of its class, a conflict with the hash of its class or skipped
/// exactly if that is its class, so it is planned once. A path has no class
/// exactly if no side has it.
pub proof fn law_each_path_has_one_fate(
    server: Map<Seq<char>, FileMetaView>,
    local: Map<Seq<char>, FileMetaView>,
    base: Map<Seq<char>, Seq<char>>,
    keys: Seq<Seq<char>>,
    path: Seq<char>,
    hash: Seq<char>,
)
    requires
        keys.contains(path),
    ensures
        pulls(server, local, base, keys).contains(path) <==> class_of(server, local, base, path) is Pull,
        skips(server, local, base, keys).contains(path) <==> class_of(server, local, base, path) is Skip,
        pushes(server, local, base, keys).contains((path, hash)) <==> class_of(server, local, base, path)
            == Class::Push(hash),
        clashes(server, local, base, keys).contains((path, hash)) <==> class_of(server, local, base, path)
            == Class::Conflict(hash),
        class_of(server, local, base, path) is Absent <==> !server.dom().contains(path)
            && !local.dom().contains(path),
{
    let is_pull = |p: Seq<char>| class_of(server, local, base, p) is Pull;
    let is_skip = |p: Seq<char>| class_of(server, local, base, p) is Skip;
    let i = choose|i: int| 0 <= i < keys.len() && keys[i] == path;
    if is_pull(path) {
        keys.lemma_filter_contains(is_pull, i);
    } else if pulls(server, local, base, keys).contains(path) {
        let s = keys.filter(is_pull);
        let k = choose|k: int| 0 <= k < s.len() && s[k] == path;
        keys.lemma_filter_pred(is_pull, k);
    }
    if is_skip(path) {
        keys.lemma_filter_contains(is_skip, i);
    } else if skips(server, local, base, keys).contains(path) {
        let s = keys.filter(is_skip);
        let k = choose|k: int| 0 <= k < s.len() && s[k] == path;
        keys.lemma_filter_pred(is_skip, k);
    }
    let push_of = |p: Seq<char>|
        match class_of(server, local, base, p) {
            Class::Push(h) => Some((p, h)),
            _ => None,
        };
    let clash_of = |p: Seq<char>|
        match class_of(server, local, base, p) {
            Class::Conflict(h) => Some((p, h)),
            _ => None,
        };
    lemma_entry_of_key(keys, push_of, (path, hash));
    lemma_entry_of_key(keys, clash_of, (path, hash));
}

proof fn lemma_entries_are_distinct(keys: Seq<Seq<char>>, f: spec_fn(Seq<char>) -> Option<(Seq<char>, Seq<char>)>)
    requires
        keeps_paths(f),
        keys.no_duplicates(),
    ensures
        forall|i: int, j: int|
            0 <= i < j < keys.filter_map(f).len() ==> #[trigger] keys.filter_map(f)[i].0
                != #[trigger] keys.filter_map(f)[j].0,
    decreases keys.len(),
{
    reveal(Seq::filter_map);
    if keys.len() > 0 {
        let rest = keys.drop_last();
        let head = rest.filter_map(f);
        assert(rest.no_duplicates());
        lemma_entries_are_distinct(rest, f);
        assert(keys =~= rest.push(keys.last()));
        let all = keys.filter_map(f);
        assert forall|i: int, j: int| 0 <= i < j < all.len() implies #[trigger] all[i].0 != #[trigger] all[j].0 by {
            assert(all[i] == head[i]);
            if j < head.len() {
                assert(all[j] == head[j]);
            } else {
                assert(all[j].0 == keys.last());
                lemma_entry_of_key(rest, f, head[i]);
                assert(head.contains(head[i]));
                let k = choose|k: int| 0 <= k < rest.len() && rest[k] == head[i].0;
                assert(keys[k] == head[i].0);
                assert(keys[keys.len() - 1] == keys.last());
            }
        }
    }
}

/// A round starts by comparing what both sides list. A path of the server that
/// this side lacks is pulled, whatever the last round left; so is one that only
/// the server has changed. A path that only this side has changed is pushed
/// against the server's hash, and one that the server lacks against none. Where
/// both sides changed it, it is a conflict. A path is skipped only where both
/// sides list it with the same hash. Nothing else is planned, and no path twice.
pub proof fn law_round_starts_by_comparing(
    server_manifest: &Vec<FileMeta>,
    local_manifest: &Vec<FileMeta>,
    base_prev: &StrMap<String>,
    server_tombstones: Vec<Tombstone>,
    local_tombstones: Vec<Tombstone>,
    r: RoundCore,
    path: Seq<char>,
    hash: Seq<char>,
)
    requires
        call_ensures(
            RoundCore::new,
            (server_manifest, local_manifest, base_prev, server_tombstones, local_tombstones),
            r,
        ),
    ensures
        ({
            let there = r@.server.dom().contains(path);
            let here = r@.local.dom().contains(path);
            let theirs = r@.server[path].hash;
            let ours = r@.local[path].hash;
            let seen = base_prev@.dom().contains(path);
            let last = base_prev@[path];
            &&& r@.to_pull.contains(path) <==> there && (!here || (ours != theirs && seen && last == ours))
            &&& r@.to_push.contains((path, hash)) <==> here && ((!there && hash.len() == 0) || (there && ours
                != theirs && seen && last == theirs && hash == theirs))
            &&& r@.conflicts.contains((path, hash)) <==> there && here && ours != theirs && (!seen || (last
                != ours && last != theirs)) && hash == theirs
        }),
        r@.report.skipped == Set::new(
            |p: Seq<char>|
                r@.server.dom().contains(p) && r@.local.dom().contains(p) && r@.server[p].hash
                    == r@.local[p].hash,
        ).len(),
        r@.to_pull.no_duplicates(),
        forall|i: int, j: int|
            0 <= i < j < r@.to_push.len() ==> #[trigger] r@.to_push[i].0 != #[trigger] r@.to_push[j].0,
        forall|i: int, j: int|
            0 <= i < j < r@.conflicts.len() ==> #[trigger] r@.conflicts[i].0 != #[trigger] r@.conflicts[j].0,
        r@.baseline.dom() == r@.server.dom(),
        r@.server.dom().contains(path) ==> r@.baseline[path] == r@.server[path].hash,
        r@.report.pulled.len() == 0,
        r@.report.pushed.len() == 0,
        r@.report.conflicts.len() == 0,
        r@.report.errors.len() == 0,
        r@.report.deleted.len() == 0,
        r@.report.merges.len() == 0,
        r@.server_tombstones == text::views(server_tombstones@),
        r@.local_tombstones == text::views(local_tombstones@),
{
    let server = r@.server;
    let local = r@.local;
    let base = base_prev@;
    let keys = r.server_map.keys();
    let mine = r.local_map.keys();
    r.server_map.lemma_keys();
    r.local_map.lemma_keys();
    let is_pull = |p: Seq<char>| class_of(server, local, base, p) is Pull;
    let is_skip = |p: Seq<char>| class_of(server, local, base, p) is Skip;
    let push_of = |p: Seq<char>|
        match class_of(server, local, base, p) {
            Class::Push(h) => Some((p, h)),
            _ => None,
        };
    let clash_of = |p: Seq<char>|
        match class_of(server, local, base, p) {
            Class::Conflict(h) => Some((p, h)),
            _ => None,
        };
    let alone = |p: Seq<char>| !server.dom().contains(p);
    let bare = |p: Seq<char>| (p, Seq::<char>::empty());
    lemma_filter_has(keys, is_pull, path);
    lemma_entry_of_key(keys, push_of, (path, hash));
    lemma_entry_of_key(keys, clash_of, (path, hash));
    lemma_entries_are_distinct(keys, push_of);
    lemma_entries_are_distinct(keys, clash_of);
    lemma_filter_distinct(keys, is_pull);
    lemma_filter_distinct(keys, is_skip);
    lemma_filter_distinct(mine, alone);
    lemma_filter_has(mine, alone, path);
    let first = keys.filter_map(push_of);
    let own = mine.filter(alone);
    let second = own.map_values(bare);
    let all = first + second;
    assert(r@.to_push == all);
    if all.contains((path, hash)) {
        let k = choose|k: int| 0 <= k < all.len() && all[k] == (path, hash);
        if k < first.len() {
            assert(first[k] == (path, hash));
        } else {
            assert(own[k - first.len()] == path);
        }
    }
    if first.contains((path, hash)) {
        let k = choose|k: int| 0 <= k < first.len() && first[k] == (path, hash);
        assert(all[k] == (path, hash));
    }
    if own.contains(path) && hash.len() == 0 {
        let k = choose|k: int| 0 <= k < own.len() && own[k] == path;
        assert(hash =~= Seq::<char>::empty());
        assert(all[first.len() + k] == (path, hash));
    }
    assert forall|i: int, j: int| 0 <= i < j < all.len() implies #[trigger] all[i].0 != #[trigger] all[j].0 by {
        if j < first.len() {
            assert(first[i].0 != first[j].0);
        } else if i >= first.len() {
            assert(own[i - first.len()] != own[j - first.len()]);
        } else {
            assert(all[i] == first[i]);
            lemma_entry_of_key(keys, push_of, first[i]);
            assert(first.contains(first[i]));
            let q = own[j - first.len()];
            lemma_filter_has(mine, alone, q);
            assert(own.contains(q));
        }
    }
    let agreed = Set::new(
        |p: Seq<char>|
            server.dom().contains(p) && local.dom().contains(p) && server[p].hash == local[p].hash,
    );
    let skipped = keys.filter(is_skip);
    skipped.unique_seq_to_set();
    assert forall|p: Seq<char>| skipped.to_set().contains(p) <==> agreed.contains(p) by {
        lemma_filter_has(keys, is_skip, p);
    }
    assert(skipped.to_set() =~= agreed);
}

proof fn lemma_filter_has(keys: Seq<Seq<char>>, f: spec_fn(Seq<char>) -> bool, path: Seq<char>)
    ensures
        keys.filter(f).contains(path) <==> keys.contains(path) && f(path),
{
    if keys.contains(path) && f(path) {
        let i = choose|i: int| 0 <= i < keys.len() && keys[i] == path;
        keys.lemma_filter_contains(f, i);
    }
    if keys.filter(f).contains(path) {
        let k = choose|k: int| 0 <= k < keys.filter(f).len() && keys.filter(f)[k] == path;
        keys.lemma_filter_pred(f, k);
        keys.lemma_filter_contains_rev(f, path);
    }
}

proof fn lemma_filter_distinct(keys: Seq<Seq<char>>, f: spec_fn(Seq<char>) -> bool)
    requires
        keys.no_duplicates(),
    ensures
        keys.filter(f).no_duplicates(),
    decreases keys.len(),
{
    reveal(Seq::filter);
    if keys.len() > 0 {
        let rest = keys.drop_last();
        lemma_filter_distinct(rest, f);
        if f(keys.last()) {
            let head = rest.filter(f);
            let all = keys.filter(f);
            assert(all == head.push(keys.last()));
            lemma_filter_has(rest, f, keys.last());
            assert(!rest.contains(keys.last())) by {
                if rest.contains(keys.last()) {
                    let k = choose|k: int| 0 <= k < rest.len() && rest[k] == keys.last();
                    assert(keys[k] == keys[keys.len() - 1]);
                }
            }
            assert(!head.contains(keys.last()));
            assert forall|i: int, j: int| 0 <= i < all.len() && 0 <= j < all.len() && i != j implies all[i]
                != all[j] by {
                if i == head.len() {
                    assert(head.contains(head[j]));
                } else if j == head.len() {
                    assert(head.contains(head[i]));
                } else {
                    assert(head[i] != head[j]);
                }
            }
        }
    }
}

/// A round between two sides that hold the same files has nothing to do:
/// nothing is pulled, pushed or in conflict, whatever the last round left, and
/// every path is skipped. So a round that brought both sides together is
/// followed by rounds that change nothing.
pub proof fn law_equal_sides_are_left_alone(
    server: Map<Seq<char>, FileMetaView>,
    local: Map<Seq<char>, FileMetaView>,
    base: Map<Seq<char>, Seq<char>>,
    server_keys: Seq<Seq<char>>,
    local_keys: Seq<Seq<char>>,
)
    requires
        server.dom() == local.dom(),
        forall|p: Seq<char>| #[trigger] server.dom().contains(p) ==> server[p].hash == local[p].hash,
        forall|i: int| 0 <= i < server_keys.len() ==> server.dom().contains(#[trigger] server_keys[i]),
        forall|i: int| 0 <= i < local_keys.len() ==> local.dom().contains(#[trigger] local_keys[i]),
    ensures
        pulls(server, local, base, server_keys).len() == 0,
        pushes(server, local, base, server_keys).len() == 0,
        clashes(server, local, base, server_keys).len() == 0,
        only_local(server, local_keys).len() == 0,
        skips(server, local, base, server_keys) == server_keys,
    decreases server_keys.len(), local_keys.len(),
{
    reveal(Seq::filter);
    reveal(Seq::filter_map);
    if server_keys.len() > 0 {
        law_equal_sides_are_left_alone(server, local, base, server_keys.drop_last(), local_keys);
        assert(server.dom().contains(server_keys[server_keys.len() - 1]));
        assert(local.dom().contains(server_keys.last()));
        assert(class_of(server, local, base, server_keys.last()) is Skip);
        assert(server_keys =~= server_keys.drop_last().push(server_keys.last()));
    } else if local_keys.len() > 0 {
        law_equal_sides_are_left_alone(server, local, base, server_keys, local_keys.drop_last());
        assert(local.dom().contains(local_keys[local_keys.len() - 1]));
        assert(server.dom().contains(local_keys.last()));
    }
}

/// What only one side changed since the last round is never a conflict: it goes
/// from the side that changed it to the other.
pub proof fn law_one_sided_change_is_no_conflict(
    server: Map<Seq<char>, FileMetaView>,
    local: Map<Seq<char>, FileMetaView>,
    base: Map<Seq<char>, Seq<char>>,
    path: Seq<char>,
)
    requires
        server.dom().contains(path),
        local.dom().contains(path),
        base.dom().contains(path),
        server[path].hash != local[path].hash,
    ensures
        base[path] == local[path].hash ==> class_of(server, local, base, path) is Pull,
        base[path] == server[path].hash ==> class_of(server, local, base, path) == Class::Push(
            server[path].hash,
        ),
        base[path] != local[path].hash && base[path] != server[path].hash ==> class_of(
            server,
            local,
            base,
            path,
        ) == Class::Conflict(server[path].hash),
{
}

// ---------- deletions ----------

/// What is to be done about a deletion of this side at the start of a round.
#[derive(Debug, Clone, Copy, PartialEq, Eq, Structural)]
pub enum Revival {
    /// The file is still gone: the deletion stands.
    Gone,
    /// The file is back and newer than its deletion: the deletion is dropped.
    Revived,
    /// The file is back but not newer: it is deleted again.
    Stale,
}

/// What is to be done about a deletion, by the modification time of the file
/// at its path, if there is one.
pub open spec fn revival_of(t: TombstoneView, mtime_ms: Option<i64>) -> Revival {
    match mtime_ms {
        None => Revival::Gone,
        Some(m) => if m > t.mtime_ms {
            Revival::Revived
        } else {
            Revival::Stale
        },
    }
}

/// What is to be done about a deletion at the start of a round.
pub fn revival(t: &Tombstone, mtime_ms: Option<i64>) -> (r: Revival)
    ensures
        r == revival_of(t@, mtime_ms),
{
    match mtime_ms {
        None => Revival::Gone,
        Some(m) => if m > t.mtime_ms {
            Revival::Revived
        } else {
            Revival::Stale
        },
    }
}

/// The deletions among the first `n` that stand: all but those of files that
/// came back newer.
pub open spec fn standing(
    list: Seq<TombstoneView>,
    on_disk: Seq<Option<i64>>,
    n: int,
) -> Seq<TombstoneView>
    decreases n,
{
    if n <= 0 || n > list.len() {
        Seq::empty()
    } else {
        let head = standing(list, on_disk, n - 1);
        if revival_of(list[n - 1], on_disk[n - 1]) == Revival::Revived {
            head
        } else {
            head.push(list[n - 1])
        }
    }
}

/// The deletions of this side that stand at the start of a round. `on_disk` are
/// the modification times of the files at their paths.
pub fn standing_tombstones(list: &Vec<Tombstone>, on_disk: &Vec<Option<i64>>) -> (r: Vec<Tombstone>)
    requires
        on_disk@.len() == list@.len(),
    ensures
        text::views(r@) == standing(text::views(list@), on_disk@, list@.len() as int),
{
    let mut out: Vec<Tombstone> = Vec::new();
    let mut i: usize = 0;
    let ghost all = text::views(list@);
    assert(text::views(out@) =~= Seq::empty());
    while i < list.len()
        invariant
            i <= list.len(),
            on_disk@.len() == list@.len(),
            all == text::views(list@),
            text::views(out@) == standing(all, on_disk@, i as int),
        decreases list.len() - i,
    {
        broadcast use text::lemma_views_push;
        assert(all[i as int] == list@[i as int]@);
        if !matches!(revival(&list[i], on_disk[i]), Revival::Revived) {
            out.push(list[i].clone());
        }
        i = i + 1;
    }
    out
}

/// What a round does on disk about a deletion.
#[derive(Debug)]
pub enum DiskStep {
    /// Drop the tombstone of the path.
    Clear(String),
    /// Move the file to the trash.
    SoftDelete(String),
    /// Record a tombstone.
    Record(Tombstone),
}

pub enum DiskStepView {
    Clear(Seq<char>),
    SoftDelete(Seq<char>),
    Record(TombstoneView),
}

impl View for DiskStep {
    type V = DiskStepView;

    open spec fn view(&self) -> DiskStepView {
        match self {
            DiskStep::Clear(p) => DiskStepView::Clear(p@),
            DiskStep::SoftDelete(p) => DiskStepView::SoftDelete(p@),
            DiskStep::Record(t) => DiskStepView::Record(t@),
        }
    }
}

/// Whether a path is among those to push.
pub open spec fn has_push(s: Seq<(Seq<char>, Seq<char>)>, path: Seq<char>) -> bool {
    exists|i: int| 0 <= i < s.len() && (#[trigger] s[i]).0 == path
}

/// The paths to push without one of them.
pub open spec fn pushes_without(s: Seq<(Seq<char>, Seq<char>)>, path: Seq<char>) -> Seq<
    (Seq<char>, Seq<char>),
> {
    s.filter(push_elsewhere(path))
}

/// Whether an entry is of another path.
pub open spec fn push_elsewhere(path: Seq<char>) -> spec_fn((Seq<char>, Seq<char>)) -> bool {
    |x: (Seq<char>, Seq<char>)| x.0 != path
}

/// The paths to pull without one of them.
pub open spec fn pulls_without(s: Seq<Seq<char>>, path: Seq<char>) -> Seq<Seq<char>> {
    s.filter(elsewhere(path))
}

/// Whether a path is another.
pub open spec fn elsewhere(path: Seq<char>) -> spec_fn(Seq<char>) -> bool {
    |x: Seq<char>| x != path
}

/// The round and what it does on disk after it looked at one deletion of the
/// server. A path that the server still lists is left to the other steps. A
/// file that this side lacks is deleted on both sides. A file that is the one
/// that was deleted, whatever its time, is deleted here too. Else the newer one
/// of edit and deletion wins: an edit goes back to the server, a deletion is
/// taken over.
pub open spec fn after_server_tombstone(
    v: RoundView,
    steps: Seq<DiskStepView>,
    t: TombstoneView,
) -> (RoundView, Seq<DiskStepView>) {
    let kept = sync::tombstones_without(v.local_tombstones, t.path);
    if v.server.dom().contains(t.path) {
        (v, steps)
    } else if !v.local.dom().contains(t.path) {
        (
            RoundView { local_tombstones: kept.push(t), ..v },
            steps.push(DiskStepView::Record(t)),
        )
    } else if v.local[t.path].hash != t.hash && sync::newer(v.local[t.path].version(), t.version()) {
        (
            RoundView {
                local_tombstones: kept,
                to_push: if has_push(v.to_push, t.path) {
                    v.to_push
                } else {
                    v.to_push.push((t.path, Seq::empty()))
                },
                ..v
            },
            steps.push(DiskStepView::Clear(t.path)),
        )
    } else {
        (
            RoundView {
                local_tombstones: kept.push(t),
                to_push: pushes_without(v.to_push, t.path),
                to_pull: pulls_without(v.to_pull, t.path),
                report: v.report.with_deleted(t.path),
                ..v
            },
            steps.push(DiskStepView::SoftDelete(t.path)).push(DiskStepView::Record(t)),
        )
    }
}

/// The round and what it does on disk after it looked at the first `n`
/// deletions of the server.
pub open spec fn after_server_tombstones(v: RoundView, list: Seq<TombstoneView>, n: int) -> (
    RoundView,
    Seq<DiskStepView>,
)
    decreases n,
{
    if n <= 0 || n > list.len() {
        (v, Seq::empty())
    } else {
        let (u, steps) = after_server_tombstones(v, list, n - 1);
        after_server_tombstone(u, steps, list[n - 1])
    }
}

/// The round and the paths to delete on the server after it looked at one
/// deletion of this side. A file that the server lacks needs nothing. Where the
/// server's file is the one that was deleted, or is not newer than the
/// deletion, the server is to delete it too; else it comes back, and the
/// tombstone is dropped.
pub open spec fn after_local_tombstone(
    v: RoundView,
    to_delete: Seq<Seq<char>>,
    steps: Seq<DiskStepView>,
    t: TombstoneView,
) -> (RoundView, Seq<Seq<char>>, Seq<DiskStepView>) {
    if !v.server.dom().contains(t.path) {
        (v, to_delete, steps)
    } else if v.server[t.path].hash == t.hash || !sync::newer(
        v.server[t.path].version(),
        t.version(),
    ) {
        (
            RoundView { to_pull: pulls_without(v.to_pull, t.path), ..v },
            to_delete.push(t.path),
            steps,
        )
    } else {
        (v, to_delete, steps.push(DiskStepView::Clear(t.path)))
    }
}

/// The round, the paths to delete on the server and what is done on disk after
/// the first `n` deletions of this side.
pub open spec fn after_local_tombstones(v: RoundView, list: Seq<TombstoneView>, n: int) -> (
    RoundView,
    Seq<Seq<char>>,
    Seq<DiskStepView>,
)
    decreases n,
{
    if n <= 0 || n > list.len() {
        (v, Seq::empty(), Seq::empty())
    } else {
        let (u, d, s) = after_local_tombstones(v, list, n - 1);
        after_local_tombstone(u, d, s, list[n - 1])
    }
}

/// The report after the server's answers to a request to delete.
pub open spec fn after_deletes(report: SyncReportView, results: Seq<sync::PushResultView>, n: int) -> SyncReportView
    decreases n,
{
    if n <= 0 || n > results.len() {
        report
    } else {
        let r = results[n - 1];
        let head = after_deletes(report, results, n - 1);
        if r.ok {
            head.with_deleted(r.path)
        } else {
            head.with_error("删除传播失败 "@ + r.path + ": "@ + or_empty(r.error))
        }
    }
}

/// A text, empty where it is missing.
pub open spec fn or_empty(s: Option<Seq<char>>) -> Seq<char> {
    match s {
        Some(t) => t,
        None => Seq::empty(),
    }
}

/// A text, empty where it is missing.
fn text_or_empty(s: &Option<String>) -> (r: String)
    ensures
        r@ == or_empty(text::opt_view(*s)),
{
    match s {
        Some(t) => t.clone(),
        None => {
            let e = String::new();
            assert(e@ =~= Seq::<char>::empty());
            e
        },
    }
}

/// Drops the entries of `path` from the paths to push.
fn drop_push(list: &mut Vec<(String, String)>, path: &str)
    ensures
        text::views(final(list)@) == pushes_without(text::views(old(list)@), path@),
{
    let ghost f = push_elsewhere(path@);
    let mut kept: Vec<(String, String)> = Vec::new();
    let mut i: usize = 0;
    proof {
        reveal(Seq::filter);
        assert(text::views(list@).take(0).filter(f) =~= Seq::empty());
        assert(text::views(kept@) =~= Seq::empty());
    }
    while i < list.len()
        invariant
            i <= list.len(),
            f == push_elsewhere(path@),
            text::views(kept@) == text::views(list@).take(i as int).filter(f),
        decreases list.len() - i,
    {
        broadcast use text::lemma_views_push;
        proof {
            let s = text::views(list@);
            assert(s.take(i + 1) =~= s.take(i as int).push(s[i as int]));
            s.take(i as int).lemma_filter_push(s[i as int], f);
        }
        if !same(list[i].0.as_str(), path) {
            kept.push((list[i].0.clone(), list[i].1.clone()));
        }
        i = i + 1;
    }
    assert(text::views(list@).take(i as int) =~= text::views(list@));
    *list = kept;
}

/// Drops `path` from the paths to pull.
fn drop_pull(list: &mut Vec<String>, path: &str)
    ensures
        text::views(final(list)@) == pulls_without(text::views(old(list)@), path@),
{
    let ghost f = elsewhere(path@);
    let mut kept: Vec<String> = Vec::new();
    let mut i: usize = 0;
    proof {
        reveal(Seq::filter);
        assert(text::views(list@).take(0).filter(f) =~= Seq::empty());
        assert(text::views(kept@) =~= Seq::empty());
    }
    while i < list.len()
        invariant
            i <= list.len(),
            f == elsewhere(path@),
            text::views(kept@) == text::views(list@).take(i as int).filter(f),
        decreases list.len() - i,
    {
        broadcast use text::lemma_views_push;
        proof {
            let s = text::views(list@);
            assert(s.take(i + 1) =~= s.take(i as int).push(s[i as int]));
            s.take(i as int).lemma_filter_push(s[i as int], f);
        }
        if !same(list[i].as_str(), path) {
            kept.push(list[i].clone());
        }
        i = i + 1;
    }
    assert(text::views(list@).take(i as int) =~= text::views(list@));
    *list = kept;
}

/// Whether `path` is among the paths to push.
fn find_push(list: &Vec<(String, String)>, path: &str) -> (r: bool)
    ensures
        r == has_push(text::views(list@), path@),
{
    let mut i: usize = 0;
    while i < list.len()
        invariant
            i <= list.len(),
            forall|j: int| 0 <= j < i ==> (#[trigger] text::views(list@)[j]).0 != path@,
        decreases list.len() - i,
    {
        if same(list[i].0.as_str(), path) {
            assert(text::views(list@)[i as int].0 == path@);
            return true;
        }
        i = i + 1;
    }
    false
}

impl RoundCore {
    /// Looks at one deletion of the server and adds what is to be done on disk.
    pub fn server_tombstone(&mut self, t: &Tombstone, steps: &mut Vec<DiskStep>)
        requires
            old(self).wf(),
        ensures
            final(self).wf(),
            (final(self)@, text::views(final(steps)@)) == after_server_tombstone(
                old(self)@,
                text::views(old(steps)@),
                t@,
            ),
    {
        broadcast use text::lemma_views_push;
        if self.server_map.contains_key(t.path.as_str()) {
            return;
        }
        match self.local_map.get(t.path.as_str()) {
            None => {
                upsert_tombstone(&mut self.local_tombstones, t.clone());
                steps.push(DiskStep::Record(t.clone()));
            },
            Some(lm) => {
                let edit_wins = !same(lm.hash.as_str(), t.hash.as_str()) && version_gt(
                    (lm.mtime_ms, lm.size, lm.hash.as_str()),
                    (t.mtime_ms, 0, t.hash.as_str()),
                );
                if edit_wins {
                    clear_tombstone(&mut self.local_tombstones, t.path.as_str());
                    steps.push(DiskStep::Clear(t.path.clone()));
                    if !find_push(&self.to_push, t.path.as_str()) {
                        let none = String::new();
                        assert(none@ =~= Seq::<char>::empty());
                        self.to_push.push((t.path.clone(), none));
                    }
                } else {
                    steps.push(DiskStep::SoftDelete(t.path.clone()));
                    self.report.add_deleted(t.path.as_str());
                    upsert_tombstone(&mut self.local_tombstones, t.clone());
                    steps.push(DiskStep::Record(t.clone()));
                    drop_push(&mut self.to_push, t.path.as_str());
                    drop_pull(&mut self.to_pull, t.path.as_str());
                }
            },
        }
    }

    /// Looks at the deletions of the server, and returns what is to be done on
    /// disk, in order. Where a file cannot be moved to the trash the round
    /// ends.
    pub fn server_tombstones_phase(&mut self) -> (steps: Vec<DiskStep>)
        requires
            old(self).wf(),
        ensures
            final(self).wf(),
            (final(self)@, text::views(steps@)) == after_server_tombstones(
                RoundView { server_tombstones: Seq::empty(), ..old(self)@ },
                old(self)@.server_tombstones,
                old(self)@.server_tombstones.len() as int,
            ),
    {
        let mut list: Vec<Tombstone> = Vec::new();
        std::mem::swap(&mut list, &mut self.server_tombstones);
        let ghost start = self@;
        let ghost all = text::views(list@);
        let mut steps: Vec<DiskStep> = Vec::new();
        let mut i: usize = 0;
        proof {
            assert(start.server_tombstones =~= Seq::empty());
            assert(text::views(steps@) =~= Seq::empty());
        }
        while i < list.len()
            invariant
                i <= list.len(),
                self.wf(),
                all == text::views(list@),
                (self@, text::views(steps@)) == after_server_tombstones(start, all, i as int),
            decreases list.len() - i,
        {
            assert(all[i as int] == list@[i as int]@);
            self.server_tombstone(&list[i], &mut steps);
            i = i + 1;
        }
        steps
    }

    /// Looks at the deletions of this side, and returns the paths to delete on
    /// the server and what is to be done on disk.
    pub fn local_tombstones_phase(&mut self) -> (r: (Vec<String>, Vec<DiskStep>))
        requires
            old(self).wf(),
        ensures
            final(self).wf(),
            (final(self)@, text::views(r.0@), text::views(r.1@)) == after_local_tombstones(
                RoundView { local_tombstones: Seq::empty(), ..old(self)@ },
                old(self)@.local_tombstones,
                old(self)@.local_tombstones.len() as int,
            ),
    {
        let mut list: Vec<Tombstone> = Vec::new();
        std::mem::swap(&mut list, &mut self.local_tombstones);
        let ghost start = self@;
        let ghost all = text::views(list@);
        let mut to_delete: Vec<String> = Vec::new();
        let mut steps: Vec<DiskStep> = Vec::new();
        let mut i: usize = 0;
        proof {
            assert(start.local_tombstones =~= Seq::empty());
            assert(text::views(steps@) =~= Seq::empty());
            assert(text::views(to_delete@) =~= Seq::empty());
        }
        while i < list.len()
            invariant
                i <= list.len(),
                self.wf(),
                all == text::views(list@),
                (self@, text::views(to_delete@), text::views(steps@)) == after_local_tombstones(
                    start,
                    all,
                    i as int,
                ),
            decreases list.len() - i,
        {
            broadcast use text::lemma_views_push;
            let t = &list[i];
            assert(all[i as int] == t@);
            let wanted: Option<bool> = match self.server_map.get(t.path.as_str()) {
                None => None,
                Some(sm) => {
                    let edit_wins = version_gt(
                        (sm.mtime_ms, sm.size, sm.hash.as_str()),
                        (t.mtime_ms, 0, t.hash.as_str()),
                    );
                    Some(same(sm.hash.as_str(), t.hash.as_str()) || !edit_wins)
                },
            };
            match wanted {
                None => {},
                Some(delete) => {
                    if delete {
                        to_delete.push(t.path.clone());
                        drop_pull(&mut self.to_pull, t.path.as_str());
                    } else {
                        steps.push(DiskStep::Clear(t.path.clone()));
                    }
                },
            }
            i = i + 1;
        }
        (to_delete, steps)
    }

    /// Takes note of the server's answers to a request to delete.
    pub fn note_deletes(&mut self, results: &Vec<PushResult>)
        requires
            old(self).wf(),
        ensures
            final(self).wf(),
            final(self)@ == (RoundView {
                report: after_deletes(
                    old(self)@.report,
                    text::views(results@),
                    results@.len() as int,
                ),
                ..old(self)@
            }),
    {
        let ghost start = self@;
        let ghost all = text::views(results@);
        let mut i: usize = 0;
        while i < results.len()
            invariant
                i <= results.len(),
                self.wf(),
                all == text::views(results@),
                self@ == (RoundView { report: after_deletes(start.report, all, i as int), ..start }),
            decreases results.len() - i,
        {
            let r = &results[i];
            assert(all[i as int] == r@);
            if r.ok {
                self.report.add_deleted(r.path.as_str());
            } else {
                let why = text_or_empty(&r.error);
                let m = concat4("删除传播失败 ", r.path.as_str(), ": ", why.as_str());
                self.report.add_error(m);
            }
            i = i + 1;
        }
    }
}

proof fn lemma_pushes_without(s: Seq<(Seq<char>, Seq<char>)>, path: Seq<char>, p: Seq<char>)
    ensures
        has_push(pushes_without(s, path), p) <==> has_push(s, p) && p != path,
{
    let f = push_elsewhere(path);
    let t = pushes_without(s, path);
    if has_push(t, p) {
        let i = choose|i: int| 0 <= i < t.len() && (#[trigger] t[i]).0 == p;
        s.lemma_filter_pred(f, i);
        assert(s.filter(f).contains(t[i]));
        s.lemma_filter_contains_rev(f, t[i]);
        let k = choose|k: int| 0 <= k < s.len() && s[k] == t[i];
        assert(s[k].0 == p);
    }
    if has_push(s, p) && p != path {
        let k = choose|k: int| 0 <= k < s.len() && (#[trigger] s[k]).0 == p;
        s.lemma_filter_contains(f, k);
        let i = choose|i: int| 0 <= i < t.len() && t[i] == s[k];
        assert(t[i].0 == p);
    }
}

proof fn lemma_pulls_without(s: Seq<Seq<char>>, path: Seq<char>, p: Seq<char>)
    ensures
        pulls_without(s, path).contains(p) <==> s.contains(p) && p != path,
{
    let f = elsewhere(path);
    let t = pulls_without(s, path);
    if t.contains(p) {
        let i = choose|i: int| 0 <= i < t.len() && t[i] == p;
        s.lemma_filter_pred(f, i);
        s.lemma_filter_contains_rev(f, p);
    }
    if s.contains(p) && p != path {
        let k = choose|k: int| 0 <= k < s.len() && s[k] == p;
        s.lemma_filter_contains(f, k);
    }
}

/// Whether a path is deleted on the server, and this side's file is there and
/// is the one that was deleted, or not newer than the deletion.
pub open spec fn deletion_wins(v: RoundView, t: TombstoneView) -> bool {
    &&& !v.server.dom().contains(t.path)
    &&& v.local.dom().contains(t.path)
    &&& v.local[t.path].hash == t.hash || !sync::newer(v.local[t.path].version(), t.version())
}

/// Whether a path is deleted on the server, and this side's file is another
/// than the one that was deleted and newer than the deletion.
pub open spec fn edit_wins(v: RoundView, t: TombstoneView) -> bool {
    &&& !v.server.dom().contains(t.path)
    &&& v.local.dom().contains(t.path)
    &&& v.local[t.path].hash != t.hash
    &&& sync::newer(v.local[t.path].version(), t.version())
}

/// Whether no two deletions are of one path.
pub open spec fn distinct_paths(list: Seq<TombstoneView>) -> bool {
    forall|i: int, j: int|
        0 <= i < j < list.len() ==> (#[trigger] list[i]).path != (#[trigger] list[j]).path
}

proof fn lemma_phase_keeps_maps(v: RoundView, list: Seq<TombstoneView>, n: int)
    ensures
        after_server_tombstones(v, list, n).0.server == v.server,
        after_server_tombstones(v, list, n).0.local == v.local,
        after_server_tombstones(v, list, n).0.conflicts == v.conflicts,
        after_server_tombstones(v, list, n).0.baseline == v.baseline,
    decreases n,
{
    if 0 < n <= list.len() {
        lemma_phase_keeps_maps(v, list, n - 1);
    }
}

/// The look at a deletion changes nothing about the other paths.
proof fn lemma_other_paths_stay(v: RoundView, steps: Seq<DiskStepView>, t: TombstoneView, p: Seq<char>)
    requires
        t.path != p,
    ensures
        ({
            let u = after_server_tombstone(v, steps, t).0;
            &&& has_push(u.to_push, p) == has_push(v.to_push, p)
            &&& u.to_pull.contains(p) == v.to_pull.contains(p)
            &&& v.report.deleted.contains(p) ==> u.report.deleted.contains(p)
        }),
{
    let u = after_server_tombstone(v, steps, t).0;
    lemma_pushes_without(v.to_push, t.path, p);
    lemma_pulls_without(v.to_pull, t.path, p);
    let pushed = v.to_push.push((t.path, Seq::<char>::empty()));
    assert(has_push(pushed, p) == has_push(v.to_push, p)) by {
        if has_push(pushed, p) {
            let i = choose|i: int| 0 <= i < pushed.len() && (#[trigger] pushed[i]).0 == p;
            assert(v.to_push[i].0 == p);
        }
        if has_push(v.to_push, p) {
            let i = choose|i: int| 0 <= i < v.to_push.len() && (#[trigger] v.to_push[i]).0 == p;
            assert(pushed[i].0 == p);
        }
    }
    if v.report.deleted.contains(p) {
        let i = choose|i: int| 0 <= i < v.report.deleted.len() && v.report.deleted[i] == p;
        assert(v.report.with_deleted(t.path).deleted[i] == p);
    }
}

proof fn lemma_steps_stay(v: RoundView, steps: Seq<DiskStepView>, t: TombstoneView, x: DiskStepView)
    requires
        steps.contains(x),
    ensures
        after_server_tombstone(v, steps, t).1.contains(x),
{
    let k = choose|k: int| 0 <= k < steps.len() && steps[k] == x;
    assert(after_server_tombstone(v, steps, t).1[k] == x);
}

/// A file that was deleted on the server and not edited here since, by its hash
/// or by its time, is deleted here too: it goes to the trash, its deletion is recorded and
/// reported, and it is neither pushed nor pulled.
pub proof fn law_newer_deletion_is_taken_over(v: RoundView, list: Seq<TombstoneView>, n: int, i: int)
    requires
        0 <= i < n <= list.len(),
        distinct_paths(list),
        deletion_wins(v, list[i]),
    ensures
        ({
            let (u, steps) = after_server_tombstones(v, list, n);
            &&& !has_push(u.to_push, list[i].path)
            &&& !u.to_pull.contains(list[i].path)
            &&& u.report.deleted.contains(list[i].path)
            &&& steps.contains(DiskStepView::SoftDelete(list[i].path))
            &&& steps.contains(DiskStepView::Record(list[i]))
        }),
    decreases n,
{
    let (w, steps) = after_server_tombstones(v, list, n - 1);
    let t = list[n - 1];
    let p = list[i].path;
    lemma_phase_keeps_maps(v, list, n - 1);
    if i == n - 1 {
        lemma_pushes_without(w.to_push, p, p);
        lemma_pulls_without(w.to_pull, p, p);
        let d = w.report.with_deleted(p).deleted;
        assert(d[d.len() - 1] == p);
        let s = steps.push(DiskStepView::SoftDelete(p)).push(DiskStepView::Record(t));
        assert(s[s.len() - 2] == DiskStepView::SoftDelete(p));
        assert(s[s.len() - 1] == DiskStepView::Record(t));
    } else {
        law_newer_deletion_is_taken_over(v, list, n - 1, i);
        assert(list[i].path != list[n - 1].path);
        lemma_other_paths_stay(w, steps, t, p);
        lemma_steps_stay(w, steps, t, DiskStepView::SoftDelete(p));
        lemma_steps_stay(w, steps, t, DiskStepView::Record(list[i]));
    }
}

/// A file that this side edited, in content and after it was deleted on the
/// server, comes back:
/// it is pushed, and its tombstone here is dropped.
pub proof fn law_newer_edit_revives(v: RoundView, list: Seq<TombstoneView>, n: int, i: int)
    requires
        0 <= i < n <= list.len(),
        distinct_paths(list),
        edit_wins(v, list[i]),
    ensures
        has_push(after_server_tombstones(v, list, n).0.to_push, list[i].path),
        after_server_tombstones(v, list, n).1.contains(DiskStepView::Clear(list[i].path)),
    decreases n,
{
    let (w, steps) = after_server_tombstones(v, list, n - 1);
    let t = list[n - 1];
    let p = list[i].path;
    lemma_phase_keeps_maps(v, list, n - 1);
    if i == n - 1 {
        let s = w.to_push.push((p, Seq::<char>::empty()));
        assert(s[s.len() - 1].0 == p);
        let d = steps.push(DiskStepView::Clear(p));
        assert(d[d.len() - 1] == DiskStepView::Clear(p));
    } else {
        law_newer_edit_revives(v, list, n - 1, i);
        assert(list[i].path != list[n - 1].path);
        lemma_other_paths_stay(w, steps, t, p);
        lemma_steps_stay(w, steps, t, DiskStepView::Clear(p));
    }
}

/// The deletions of the server touch no path that they do not name.
pub proof fn law_server_deletions_touch_only_their_paths(
    v: RoundView,
    list: Seq<TombstoneView>,
    n: int,
    p: Seq<char>,
)
    requires
        0 <= n <= list.len(),
        forall|i: int| 0 <= i < n ==> (#[trigger] list[i]).path != p,
    ensures
        has_push(after_server_tombstones(v, list, n).0.to_push, p) == has_push(v.to_push, p),
        after_server_tombstones(v, list, n).0.to_pull.contains(p) == v.to_pull.contains(p),
    decreases n,
{
    if n > 0 {
        let (w, steps) = after_server_tombstones(v, list, n - 1);
        law_server_deletions_touch_only_their_paths(v, list, n - 1, p);
        lemma_other_paths_stay(w, steps, list[n - 1], p);
    }
}

/// Whether this side's deletion goes to the server: the server has the file
/// that was deleted, or one that is not newer than the deletion.
pub open spec fn deletion_spreads(v: RoundView, t: TombstoneView) -> bool {
    v.server.dom().contains(t.path) && (v.server[t.path].hash == t.hash || !sync::newer(
        v.server[t.path].version(),
        t.version(),
    ))
}

/// A file that this side deleted after the server's last edit is not pulled
/// back; the server is asked to delete it. A newer edit of the server is left
/// to be pulled.
pub proof fn law_local_deletion_spreads(v: RoundView, list: Seq<TombstoneView>, n: int, i: int)
    requires
        0 <= i < n <= list.len(),
        distinct_paths(list),
        v.server.dom().contains(list[i].path),
    ensures
        ({
            let (u, to_delete, steps) = after_local_tombstones(v, list, n);
            let p = list[i].path;
            if deletion_spreads(v, list[i]) {
                to_delete.contains(p) && !u.to_pull.contains(p)
            } else {
                u.to_pull.contains(p) == v.to_pull.contains(p)
            }
        }),
    decreases n,
{
    let (w, to_delete, steps) = after_local_tombstones(v, list, n - 1);
    let t = list[n - 1];
    let p = list[i].path;
    lemma_local_phase(v, list, n - 1, p);
    lemma_pulls_without(w.to_pull, t.path, p);
    if i == n - 1 {
        let d = to_delete.push(p);
        assert(d[d.len() - 1] == p);
        assert forall|j: int| 0 <= j < n - 1 implies (#[trigger] list[j]).path != p by {
            assert(list[j].path != list[n - 1].path);
        }
    } else {
        law_local_deletion_spreads(v, list, n - 1, i);
        assert(list[i].path != list[n - 1].path);
        if to_delete.contains(p) {
            let k = choose|k: int| 0 <= k < to_delete.len() && to_delete[k] == p;
            assert(to_delete.push(t.path)[k] == p);
        }
    }
}

proof fn lemma_local_phase(v: RoundView, list: Seq<TombstoneView>, n: int, p: Seq<char>)
    ensures
        ({
            let u = after_local_tombstones(v, list, n).0;
            &&& u.server == v.server
            &&& u.local == v.local
            &&& u.to_push == v.to_push
            &&& (forall|j: int| 0 <= j < n && j < list.len() ==> (#[trigger] list[j]).path != p)
                ==> u.to_pull.contains(p) == v.to_pull.contains(p)
        }),
    decreases n,
{
    if 0 < n <= list.len() {
        lemma_local_phase(v, list, n - 1, p);
        let w = after_local_tombstones(v, list, n - 1).0;
        lemma_pulls_without(w.to_pull, list[n - 1].path, p);
    }
}

// ---------- what deletions come to ----------

/// Whether a file was changed after it was deleted elsewhere: its content is
/// another, and it is later, or as late and not empty.
pub open spec fn outlives(m: FileMetaView, t: TombstoneView) -> bool {
    &&& m.hash != t.hash
    &&& m.mtime_ms > t.mtime_ms || (m.mtime_ms == t.mtime_ms && (m.size > 0 || (m.size == 0 && text::lex_lt(
        t.hash,
        m.hash,
    ))))
}

/// Whether a deletion that the server knows reaches a file of this side.
pub open spec fn reaches(v: RoundView, t: TombstoneView) -> bool {
    !v.server.dom().contains(t.path) && v.local.dom().contains(t.path) && !outlives(v.local[t.path], t)
}

/// Whether a file of this side outlives a deletion that the server knows.
pub open spec fn survives(v: RoundView, t: TombstoneView) -> bool {
    !v.server.dom().contains(t.path) && v.local.dom().contains(t.path) && outlives(v.local[t.path], t)
}

proof fn lemma_steps_push(s: Seq<DiskStepView>, x: DiskStepView, y: DiskStepView)
    ensures
        s.push(x).contains(y) <==> s.contains(y) || y == x,
{
    let t = s.push(x);
    assert(t[s.len() as int] == x);
    if s.contains(y) {
        let k = choose|k: int| 0 <= k < s.len() && s[k] == y;
        assert(t[k] == y);
    }
    if t.contains(y) {
        let k = choose|k: int| 0 <= k < t.len() && t[k] == y;
        if k < s.len() {
            assert(s[k] == y);
        }
    }
}

proof fn lemma_paths_push(s: Seq<Seq<char>>, x: Seq<char>, y: Seq<char>)
    ensures
        s.push(x).contains(y) <==> s.contains(y) || y == x,
{
    let t = s.push(x);
    assert(t[s.len() as int] == x);
    if s.contains(y) {
        let k = choose|k: int| 0 <= k < s.len() && s[k] == y;
        assert(t[k] == y);
    }
    if t.contains(y) {
        let k = choose|k: int| 0 <= k < t.len() && t[k] == y;
        if k < s.len() {
            assert(s[k] == y);
        }
    }
}

/// Deletions that the server knows do to this side what they say, and nothing
/// else. A file goes to the trash, and is reported as deleted, exactly where a
/// deletion reaches it; a file that was changed since is never deleted, and its
/// tombstone goes. A deletion is recorded here exactly where no file outlives it
/// and the server does not list the path. What both sides hold, and what is in
/// conflict, stays as it is.
pub proof fn law_server_deletions_do_what_they_say(
    v: RoundView,
    list: Seq<TombstoneView>,
    n: int,
    p: Seq<char>,
    t: TombstoneView,
)
    requires
        0 <= n <= list.len(),
    ensures
        ({
            let (u, steps) = after_server_tombstones(v, list, n);
            &&& steps.contains(DiskStepView::SoftDelete(p)) <==> exists|i: int|
                0 <= i < n && (#[trigger] list[i]).path == p && reaches(v, list[i])
            &&& steps.contains(DiskStepView::Clear(p)) <==> exists|i: int|
                0 <= i < n && (#[trigger] list[i]).path == p && survives(v, list[i])
            &&& steps.contains(DiskStepView::Record(t)) <==> exists|i: int|
                0 <= i < n && #[trigger] list[i] == t && !v.server.dom().contains(t.path) && !survives(v, t)
            &&& u.report.deleted.contains(p) <==> v.report.deleted.contains(p) || steps.contains(
                DiskStepView::SoftDelete(p),
            )
            &&& u.server == v.server
            &&& u.local == v.local
            &&& u.conflicts == v.conflicts
            &&& u.baseline == v.baseline
            &&& u.report.errors == v.report.errors
            &&& u.report.skipped == v.report.skipped
            &&& u.report.pulled == v.report.pulled
            &&& u.report.pushed == v.report.pushed
            &&& u.report.merges == v.report.merges
        }),
    decreases n,
{
    if n > 0 {
        law_server_deletions_do_what_they_say(v, list, n - 1, p, t);
        let (u, steps) = after_server_tombstones(v, list, n - 1);
        let x = list[n - 1];
        let soft = steps.push(DiskStepView::SoftDelete(x.path));
        lemma_paths_push(u.report.deleted, x.path, p);
        lemma_steps_push(steps, DiskStepView::Record(x), DiskStepView::SoftDelete(p));
        lemma_steps_push(steps, DiskStepView::Record(x), DiskStepView::Clear(p));
        lemma_steps_push(steps, DiskStepView::Record(x), DiskStepView::Record(t));
        lemma_steps_push(steps, DiskStepView::Clear(x.path), DiskStepView::SoftDelete(p));
        lemma_steps_push(steps, DiskStepView::Clear(x.path), DiskStepView::Clear(p));
        lemma_steps_push(steps, DiskStepView::Clear(x.path), DiskStepView::Record(t));
        lemma_steps_push(steps, DiskStepView::SoftDelete(x.path), DiskStepView::SoftDelete(p));
        lemma_steps_push(steps, DiskStepView::SoftDelete(x.path), DiskStepView::Clear(p));
        lemma_steps_push(steps, DiskStepView::SoftDelete(x.path), DiskStepView::Record(t));
        lemma_steps_push(soft, DiskStepView::Record(x), DiskStepView::SoftDelete(p));
        lemma_steps_push(soft, DiskStepView::Record(x), DiskStepView::Clear(p));
        lemma_steps_push(soft, DiskStepView::Record(x), DiskStepView::Record(t));
        assert(list[n - 1] == x);
        if v.local.dom().contains(x.path) {
            lemma_outlives(v.local[x.path], x);
        }
    }
}

proof fn lemma_outlives(m: FileMetaView, t: TombstoneView)
    ensures
        m.hash != t.hash && sync::newer(m.version(), t.version()) <==> outlives(m, t),
{
}

/// A file that outlives its deletion is pushed, so that it comes back on the
/// server, against no version where it was not to be pushed anyway; one that is
/// deleted is neither pushed nor pulled. Nothing else about pushes and pulls
/// changes.
pub proof fn law_what_outlives_its_deletion_is_pushed(
    v: RoundView,
    list: Seq<TombstoneView>,
    n: int,
    p: Seq<char>,
    h: Seq<char>,
)
    requires
        0 <= n <= list.len(),
        distinct_paths(list),
    ensures
        ({
            let u = after_server_tombstones(v, list, n).0;
            let gone = exists|i: int| 0 <= i < n && (#[trigger] list[i]).path == p && reaches(v, list[i]);
            let back = exists|i: int| 0 <= i < n && (#[trigger] list[i]).path == p && survives(v, list[i]);
            &&& u.to_pull.contains(p) <==> v.to_pull.contains(p) && !gone
            &&& u.to_push.contains((p, h)) <==> (v.to_push.contains((p, h)) && !gone) || (back && h.len() == 0
                && !has_push(v.to_push, p))
        }),
    decreases n,
{
    let gone = exists|i: int| 0 <= i < n && (#[trigger] list[i]).path == p && reaches(v, list[i]);
    let back = exists|i: int| 0 <= i < n && (#[trigger] list[i]).path == p && survives(v, list[i]);
    if n > 0 {
        law_what_outlives_its_deletion_is_pushed(v, list, n - 1, p, h);
        law_server_deletions_do_what_they_say(v, list, n - 1, p, list[n - 1]);
        let u = after_server_tombstones(v, list, n - 1).0;
        let w = after_server_tombstones(v, list, n).0;
        let x = list[n - 1];
        assert(list[n - 1] == x);
        if v.local.dom().contains(x.path) {
            lemma_outlives(v.local[x.path], x);
        }
        if x.path == p {
            assert forall|i: int| 0 <= i < n - 1 implies (#[trigger] list[i]).path != p by {}
            law_server_deletions_touch_only_their_paths(v, list, n - 1, p);
        }
        lemma_filter_has(u.to_pull, elsewhere(x.path), p);
        lemma_push_kept(u.to_push, x.path, (p, h));
        let none = (x.path, Seq::<char>::empty());
        let more = u.to_push.push(none);
        assert(more[u.to_push.len() as int] == none);
        if u.to_push.contains((p, h)) {
            let k = choose|k: int| 0 <= k < u.to_push.len() && u.to_push[k] == (p, h);
            assert(more[k] == (p, h));
        }
        if more.contains((p, h)) {
            let k = choose|k: int| 0 <= k < more.len() && more[k] == (p, h);
            if k < u.to_push.len() {
                assert(u.to_push[k] == (p, h));
            }
        }
        if h.len() == 0 {
            assert(h =~= Seq::<char>::empty());
        }
        if u.to_push.contains((p, h)) {
            let k = choose|k: int| 0 <= k < u.to_push.len() && u.to_push[k] == (p, h);
            assert(u.to_push[k].0 == p);
            assert(has_push(u.to_push, p));
        }
        if v.to_push.contains((p, h)) {
            let k = choose|k: int| 0 <= k < v.to_push.len() && v.to_push[k] == (p, h);
            assert(v.to_push[k].0 == p);
            assert(has_push(v.to_push, p));
        }
    }
}

proof fn lemma_push_kept(s: Seq<(Seq<char>, Seq<char>)>, path: Seq<char>, x: (Seq<char>, Seq<char>))
    ensures
        pushes_without(s, path).contains(x) <==> s.contains(x) && x.0 != path,
{
    let f = push_elsewhere(path);
    if s.contains(x) && x.0 != path {
        let i = choose|i: int| 0 <= i < s.len() && s[i] == x;
        s.lemma_filter_contains(f, i);
    }
    if s.filter(f).contains(x) {
        let k = choose|k: int| 0 <= k < s.filter(f).len() && s.filter(f)[k] == x;
        s.lemma_filter_pred(f, k);
        s.lemma_filter_contains_rev(f, x);
    }
}

/// Deletions of this side go to the server exactly where it still lists the file
/// and has not changed it since; they are then not pulled back. A deletion that
/// the server's file outlives is dropped, and the file is pulled if it was to be.
/// Nothing else changes.
pub proof fn law_own_deletions_do_what_they_say(
    v: RoundView,
    list: Seq<TombstoneView>,
    n: int,
    p: Seq<char>,
    t: TombstoneView,
)
    requires
        0 <= n <= list.len(),
    ensures
        ({
            let (u, to_delete, steps) = after_local_tombstones(v, list, n);
            &&& to_delete.contains(p) <==> exists|i: int|
                {
                    &&& 0 <= i < n
                    &&& (#[trigger] list[i]).path == p
                    &&& v.server.dom().contains(p)
                    &&& !outlives(v.server[p], list[i])
                }
            &&& steps.contains(DiskStepView::Clear(p)) <==> exists|i: int|
                {
                    &&& 0 <= i < n
                    &&& (#[trigger] list[i]).path == p
                    &&& v.server.dom().contains(p)
                    &&& outlives(v.server[p], list[i])
                }
            &&& !steps.contains(DiskStepView::SoftDelete(p))
            &&& !steps.contains(DiskStepView::Record(t))
            &&& u.to_pull.contains(p) <==> v.to_pull.contains(p) && !to_delete.contains(p)
            &&& u.to_push == v.to_push
            &&& u.server == v.server
            &&& u.local == v.local
            &&& u.conflicts == v.conflicts
            &&& u.baseline == v.baseline
            &&& u.report == v.report
        }),
    decreases n,
{
    if n > 0 {
        law_own_deletions_do_what_they_say(v, list, n - 1, p, t);
        let (u, d, steps) = after_local_tombstones(v, list, n - 1);
        let x = list[n - 1];
        assert(list[n - 1] == x);
        lemma_paths_push(d, x.path, p);
        lemma_steps_push(steps, DiskStepView::Clear(x.path), DiskStepView::Clear(p));
        lemma_steps_push(steps, DiskStepView::Clear(x.path), DiskStepView::SoftDelete(p));
        lemma_steps_push(steps, DiskStepView::Clear(x.path), DiskStepView::Record(t));
        lemma_filter_has(u.to_pull, elsewhere(x.path), p);
        if v.server.dom().contains(x.path) {
            lemma_outlives(v.server[x.path], x);
        }
    }
}

/// What the server says of deletions is told: each that was done is reported as
/// deleted, and each that was not as an error, in order.
pub proof fn law_deletions_are_told(report: SyncReportView, results: Seq<sync::PushResultView>, n: int)
    requires
        0 <= n <= results.len(),
    ensures
        ({
            let r = after_deletes(report, results, n);
            let ok = |x: sync::PushResultView| x.ok;
            let done = results.take(n).filter(ok);
            &&& r.deleted == report.deleted + done.map_values(|x: sync::PushResultView| x.path)
            &&& r.errors.len() == report.errors.len() + n - done.len()
            &&& r.pulled == report.pulled
            &&& r.pushed == report.pushed
            &&& r.skipped == report.skipped
            &&& r.merges == report.merges
            &&& r.conflicts == report.conflicts
        }),
    decreases n,
{
    let ok = |x: sync::PushResultView| x.ok;
    let path = |x: sync::PushResultView| x.path;
    if n > 0 {
        law_deletions_are_told(report, results, n - 1);
        let seen = results.take(n - 1);
        let x = results[n - 1];
        assert(results.take(n) =~= seen.push(x));
        seen.lemma_filter_push(x, ok);
        let done = seen.filter(ok);
        if x.ok {
            assert(done.push(x).map_values(path) =~= done.map_values(path).push(x.path));
            assert(report.deleted + done.push(x).map_values(path) =~= (report.deleted + done.map_values(path)).push(
                x.path,
            ));
        }
    } else {
        reveal(Seq::filter);
        assert(results.take(0) =~= Seq::empty());
        assert(results.take(0).filter(ok).len() == 0);
        assert(report.deleted + results.take(0).filter(ok).map_values(path) =~= report.deleted);
    }
}

/// A deletion of this side stands unless the file is back and later than its
/// deletion.
pub proof fn law_deletions_stand_unless_the_file_is_back(
    list: Seq<TombstoneView>,
    on_disk: Seq<Option<i64>>,
    n: int,
    t: TombstoneView,
)
    requires
        0 <= n <= list.len(),
        on_disk.len() == list.len(),
    ensures
        standing(list, on_disk, n).contains(t) <==> exists|i: int|
            {
                &&& 0 <= i < n
                &&& #[trigger] list[i] == t
                &&& on_disk[i] is Some ==> on_disk[i]->0 <= t.mtime_ms
            },
        forall|x: TombstoneView, m: i64|
            #![trigger revival_of(x, Some(m))]
            revival_of(x, Some(m)) == (if m > x.mtime_ms {
                Revival::Revived
            } else {
                Revival::Stale
            }),
        forall|x: TombstoneView| revival_of(x, None) == Revival::Gone,
    decreases n,
{
    if n > 0 {
        law_deletions_stand_unless_the_file_is_back(list, on_disk, n - 1, t);
        let head = standing(list, on_disk, n - 1);
        let all = head.push(list[n - 1]);
        assert(all[head.len() as int] == list[n - 1]);
        if head.contains(t) {
            let k = choose|k: int| 0 <= k < head.len() && head[k] == t;
            assert(all[k] == t);
        }
        if all.contains(t) {
            let k = choose|k: int| 0 <= k < all.len() && all[k] == t;
            if k < head.len() {
                assert(head[k] == t);
            }
        }
    }
}

/// After the deletions that the server knows, the tombstones of this side are
/// those it had, but for the paths that were looked at: there the server's
/// stands, unless a file outlives it.
pub proof fn law_tombstones_of_both_sides_are_merged(
    v: RoundView,
    list: Seq<TombstoneView>,
    n: int,
    t: TombstoneView,
)
    requires
        0 <= n <= list.len(),
        distinct_paths(list),
    ensures
        after_server_tombstones(v, list, n).0.local_tombstones.contains(t) <==> {
            ||| v.local_tombstones.contains(t) && !(exists|i: int|
                0 <= i < n && (#[trigger] list[i]).path == t.path && !v.server.dom().contains(t.path))
            ||| exists|i: int|
                0 <= i < n && #[trigger] list[i] == t && !v.server.dom().contains(t.path) && !survives(v, t)
        },
    decreases n,
{
    if n > 0 {
        law_tombstones_of_both_sides_are_merged(v, list, n - 1, t);
        law_server_deletions_do_what_they_say(v, list, n - 1, t.path, t);
        let u = after_server_tombstones(v, list, n - 1).0;
        let x = list[n - 1];
        assert(list[n - 1] == x);
        if v.local.dom().contains(x.path) {
            lemma_outlives(v.local[x.path], x);
        }
        let kept = sync::tombstones_without(u.local_tombstones, x.path);
        sync::law_only_the_tombstone_of_the_path_goes(u.local_tombstones, x.path, t);
        let all = kept.push(x);
        assert(all[kept.len() as int] == x);
        if kept.contains(t) {
            let k = choose|k: int| 0 <= k < kept.len() && kept[k] == t;
            assert(all[k] == t);
        }
        if all.contains(t) {
            let k = choose|k: int| 0 <= k < all.len() && all[k] == t;
            if k < kept.len() {
                assert(kept[k] == t);
            }
        }
        if t.path == x.path {
            assert forall|i: int| 0 <= i < n - 1 implies (#[trigger] list[i]).path != t.path by {}
        }
    }
}

} // verus!
