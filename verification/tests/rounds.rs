//! Whole rounds between devices whose disks are maps in memory.
use std::cell::{Cell, RefCell};
use std::collections::BTreeMap;

use lanmark::exchange::{read_push_file, store_pulled, Fetched, StoreFault};
use lanmark::fs_ops::{content_hash, save_asset, CleanName, FileWrite, Nearest, PathFacts, TRASH_DIR};
use lanmark::phases::sync_round;
use lanmark::round::{revival, standing_tombstones, DiskStep, Revival, RoundCore};
use lanmark::strmap::StrMap;
use lanmark::sync::{
    clear_tombstone, local_manifest, purge_expired_tombstones, record_tombstone, upsert_tombstone, write_conflict_copy,
    AssetOnDisk, FileMeta, NoteOnDisk, PullFile, PushFile, PushResult, SyncReport, Tombstone, TOMBSTONE_TTL_MS,
};
use lanmark::commands::{entry_delete_op, entry_rename_op};
use lanmark::sync_client::{
    delete_batch, fetch_manifest, fetch_tombstones, migrate_profiles_to_device_id, pull_batch, push_batch,
    sync_state_path, Answer, InfoResponse, ServerProfile,
};
use lanmark::sync_server::{
    delete_blocking, pull_blocking, push_blocking, pushed_content, write_pushed_file, Current, Landed, WriteFault,
};

const VAULT: &str = "/vault";
const HOUR: i64 = 3_600_000;

fn facts() -> PathFacts {
    PathFacts { nearest: Nearest::Canonical(VAULT.to_string()), canon_vault: VAULT.to_string(), is_dir: true }
}

/// A device: its files with their times, its trash, and its tombstones.
struct Device {
    files: RefCell<BTreeMap<String, (Vec<u8>, i64)>>,
    trash: RefCell<Vec<(String, Vec<u8>)>>,
    tombstones: RefCell<Vec<Tombstone>>,
    now: Cell<i64>,
}

impl Device {
    fn new() -> Device {
        Device {
            files: RefCell::new(BTreeMap::new()),
            trash: RefCell::new(Vec::new()),
            tombstones: RefCell::new(Vec::new()),
            now: Cell::new(1_789_633_800_000),
        }
    }

    fn tick(&self) -> i64 {
        self.now.set(self.now.get() + 10);
        self.now.get()
    }

    fn write(&self, path: &str, content: &[u8]) {
        let at = self.tick();
        self.files.borrow_mut().insert(path.to_string(), (content.to_vec(), at));
        clear_tombstone(&mut self.tombstones.borrow_mut(), path);
    }

    fn note(&self, path: &str, content: &str) {
        self.write(path, content.as_bytes());
    }

    fn asset(&self, bytes: &[u8], ext: &str) -> String {
        let path = save_asset(VAULT, bytes, ext, &facts()).unwrap();
        self.write(&path, bytes);
        path
    }

    fn set_mtime(&self, path: &str, ms: i64) {
        self.files.borrow_mut().get_mut(path).unwrap().1 = ms;
    }

    fn text(&self, path: &str) -> Option<String> {
        self.files.borrow().get(path).map(|f| String::from_utf8(f.0.clone()).unwrap())
    }

    fn has(&self, path: &str) -> bool {
        self.files.borrow().contains_key(path)
    }

    fn snapshot(&self) -> BTreeMap<String, String> {
        self.files.borrow().iter().map(|(k, v)| (k.clone(), content_hash(&v.0))).collect()
    }

    fn in_trash(&self, content: &str) -> bool {
        self.trash.borrow().iter().any(|t| t.1 == content.as_bytes())
    }

    fn has_tombstone(&self, path: &str) -> bool {
        self.tombstones.borrow().iter().any(|t| t.path == path)
    }

    /// Deletes an entry the way a user does: with a tombstone for each file.
    fn delete(&self, path: &str) -> String {
        let prefix = format!("{path}/");
        let below: Vec<String> = self
            .files
            .borrow()
            .keys()
            .filter(|k| k.as_str() == path || k.starts_with(&prefix))
            .cloned()
            .collect();
        let files: Vec<(String, Option<Vec<u8>>)> =
            below.iter().map(|p| (p.clone(), self.files.borrow().get(p).map(|f| f.0.clone()))).collect();
        let names: Vec<String> = self.trash.borrow().iter().map(|t| t.0.clone()).collect();
        let now = self.tick();
        let mut tombstones = self.tombstones.borrow_mut();
        let to = entry_delete_op(&mut tombstones, &files, VAULT, path, &facts(), &names, now).unwrap();
        assert!(to.starts_with(TRASH_DIR));
        let name = to[TRASH_DIR.len() + 1..].to_string();
        for p in below {
            let (bytes, _) = self.files.borrow_mut().remove(&p).unwrap();
            self.trash.borrow_mut().push((name.clone(), bytes));
        }
        to
    }

    fn soft_delete(&self, path: &str) {
        if let Some((bytes, _)) = self.files.borrow_mut().remove(path) {
            self.trash.borrow_mut().push((path.to_string(), bytes));
        }
    }

    fn manifest(&self) -> Vec<FileMeta> {
        let mut notes = Vec::new();
        let mut assets = Vec::new();
        for (path, (bytes, mtime)) in self.files.borrow().iter() {
            match path.strip_prefix("assets/") {
                Some(name) => assets.push(AssetOnDisk {
                    name: name.to_string(),
                    is_file: true,
                    is_symlink: false,
                    bytes: bytes.clone(),
                    mtime_ms: *mtime,
                }),
                None => notes.push(NoteOnDisk {
                    path: path.clone(),
                    bytes: Some(bytes.clone()),
                    stat: Some((*mtime, bytes.len() as i64)),
                }),
            }
        }
        local_manifest(&notes, &assets)
    }

    fn copy(&self, path: &str, kind: &str, bytes: &Vec<u8>) -> Result<String, String> {
        write_conflict_copy(path, kind, bytes, self.now.get(), |n| self.has(n), |w| {
            self.put(w);
            Ok(())
        })
    }

    fn put(&self, w: &FileWrite) {
        let at = self.tick();
        self.files.borrow_mut().insert(w.path.clone(), (w.bytes.clone(), at));
        if w.revives {
            clear_tombstone(&mut self.tombstones.borrow_mut(), &w.path);
        }
        if let Some(t) = w.time_ms {
            self.set_mtime(&w.path, t as i64);
        }
    }

    fn store(&self, f: &PullFile) -> Option<String> {
        store_pulled(VAULT, f, self.now.get(), |abs, w| {
            assert_eq!(abs.strip_prefix("/vault/").unwrap(), w.path);
            self.put(w);
            None::<StoreFault>
        })
    }

    // ---------- the server's side ----------

    fn serve_pull(&self, paths: &Vec<String>) -> (Vec<PullFile>, Vec<(String, String)>) {
        let r = pull_blocking(&self.manifest(), VAULT, paths, |abs| {
            let rel = abs.strip_prefix("/vault/").unwrap();
            self.files.borrow().get(rel).map(|f| f.0.clone()).ok_or("gone".to_string())
        });
        (r.files, r.missing)
    }

    fn take_push(&self, pf: &PushFile) -> Result<Landed, String> {
        write_pushed_file(
            pf,
            self.now.get(),
            |path| match self.files.borrow().get(path) {
                None => Current::Nothing,
                Some((bytes, mtime)) => Current::Content(bytes.clone(), *mtime),
            },
            |path, kind, loser| self.copy(path, kind, loser),
            |path| {
                self.files.borrow_mut().remove(path);
            },
            |w| {
                self.put(w);
                None::<WriteFault>
            },
        )
    }

    fn serve_push(&self, files: &Vec<PushFile>) -> Vec<PushResult> {
        push_blocking(files, |pf| self.take_push(pf))
    }

    fn serve_delete(&self, paths: &Vec<String>) -> Vec<PushResult> {
        delete_blocking(paths, |p| if self.has(p) { Ok(self.delete(p)) } else { Err("没有".to_string()) })
    }
}

fn empty() -> StrMap<String> {
    StrMap::new()
}

fn begin(client: &Device, server: &Device, base: &StrMap<String>) -> RoundCore {
    let at = client.tick().max(server.tick());
    client.now.set(at);
    server.now.set(at);
    purge_expired_tombstones(&mut client.tombstones.borrow_mut(), at);
    let list = client.tombstones.borrow().clone();
    let times: Vec<Option<i64>> = list.iter().map(|t| client.files.borrow().get(&t.path).map(|f| f.1)).collect();
    for (t, m) in list.iter().zip(&times) {
        match revival(t, *m) {
            Revival::Gone => {}
            Revival::Revived => clear_tombstone(&mut client.tombstones.borrow_mut(), &t.path),
            Revival::Stale => client.soft_delete(&t.path),
        }
    }
    let standing = standing_tombstones(&list, &times);
    let manifest = fetch_manifest(Answer::Status(200, "200 OK".to_string(), Ok(server.manifest()))).unwrap();
    let tombs =
        fetch_tombstones(Answer::Status(200, "200 OK".to_string(), Ok(server.tombstones.borrow().clone()))).unwrap();
    RoundCore::new(&manifest, &client.manifest(), base, tombs, standing)
}

fn act(client: &Device, step: &DiskStep) -> Option<String> {
    match step {
        DiskStep::Clear(p) => clear_tombstone(&mut client.tombstones.borrow_mut(), p),
        DiskStep::SoftDelete(p) => client.soft_delete(p),
        DiskStep::Record(t) => upsert_tombstone(&mut client.tombstones.borrow_mut(), t.clone()),
    }
    None
}

fn go_on(core: RoundCore, client: &Device, server: &Device, base: &mut StrMap<String>) -> SyncReport {
    let (next, report) = sync_round(
        core,
        |step| act(client, step),
        |paths| delete_batch(Answer::Status(200, "200 OK".to_string(), Ok(server.serve_delete(paths)))),
        |paths| -> Fetched { pull_batch(Answer::Status(200, "200 OK".to_string(), Ok(server.serve_pull(paths)))) },
        |p| client.files.borrow().get(p).map(|f| f.0.clone()).ok_or("gone".to_string()),
        |p, kind, bytes| client.copy(p, kind, bytes),
        |f| client.store(f),
        |p| client.files.borrow().get(p).cloned(),
        |b| push_batch(Answer::Status(200, "200 OK".to_string(), Ok(server.serve_push(b)))),
    )
    .unwrap();
    *base = next;
    report
}

fn round(client: &Device, server: &Device, base: &mut StrMap<String>) -> SyncReport {
    let core = begin(client, server, base);
    go_on(core, client, server, base)
}

fn settled(r: &SyncReport, skipped: usize) {
    assert!(r.pulled.is_empty() && r.pushed.is_empty() && r.merges.is_empty(), "{r:?}");
    assert!(r.errors.is_empty(), "{:?}", r.errors);
    assert_eq!(r.skipped, skipped);
}

#[test]
fn sync_round_full_flow_bidirectional() {
    let phone = Device::new();
    phone.note("手机笔记.md", "手机端内容甲");
    let asset = phone.asset(b"img-phone", "png");
    let desk = Device::new();
    desk.note("桌面笔记.md", "桌面端内容乙");
    let mut base = empty();

    let r1 = round(&desk, &phone, &mut base);
    assert_eq!(r1.pulled.len(), 2, "{r1:?}");
    assert_eq!(r1.pushed.len(), 1, "{r1:?}");
    assert!(r1.merges.is_empty());
    assert_eq!(r1.skipped, 0);
    assert!(r1.errors.is_empty(), "{:?}", r1.errors);
    assert_eq!(desk.text("手机笔记.md").unwrap(), "手机端内容甲");
    assert!(desk.has(&asset));
    assert_eq!(phone.text("桌面笔记.md").unwrap(), "桌面端内容乙");

    settled(&round(&desk, &phone, &mut base), 3);

    desk.note("桌面笔记.md", "桌面端内容乙改");
    phone.note("手机笔记.md", "手机端内容甲改");
    let r3 = round(&desk, &phone, &mut base);
    assert_eq!(r3.pulled.len(), 1);
    assert_eq!(r3.pushed.len(), 1);
    assert!(r3.errors.is_empty(), "{:?}", r3.errors);
    assert_eq!(desk.text("手机笔记.md").unwrap(), "手机端内容甲改");
    assert_eq!(phone.text("桌面笔记.md").unwrap(), "桌面端内容乙改");
}

#[test]
fn sync_round_conflict_keeps_both_versions() {
    let phone = Device::new();
    phone.note("冲突笔记.md", "原始内容");
    let desk = Device::new();
    let mut base = empty();
    let r0 = round(&desk, &phone, &mut base);
    assert_eq!(r0.pulled.len(), 1, "{r0:?}");

    desk.note("冲突笔记.md", "桌面版本");
    desk.set_mtime("冲突笔记.md", desk.now.get() + HOUR);
    phone.note("冲突笔记.md", "手机版本");

    let r1 = round(&desk, &phone, &mut base);
    assert_eq!(r1.merges.len(), 1, "{r1:?}");
    assert_eq!(r1.merges[0].winner, "local");
    assert_eq!(r1.pushed.len(), 1, "{r1:?}");
    assert!(r1.errors.is_empty(), "{:?}", r1.errors);
    assert_eq!(desk.text("冲突笔记.md").unwrap(), "桌面版本");
    let copy = &r1.merges[0].loser_copy;
    assert!(copy.contains("冲突"), "{copy}");
    assert_eq!(desk.text(copy).unwrap(), "手机版本");
    assert_eq!(phone.text("冲突笔记.md").unwrap(), "桌面版本");

    let r2 = round(&desk, &phone, &mut base);
    assert_eq!(r2.pushed.len(), 1, "{r2:?}");
    assert_eq!(r2.skipped, 1, "{r2:?}");
    assert_eq!(phone.text(copy).unwrap(), "手机版本");

    settled(&round(&desk, &phone, &mut base), 2);
}

#[test]
fn dual_client_sequential_convergence() {
    let phone = Device::new();
    phone.note("服务器笔记.md", "服务器内容");
    phone.asset(b"phone-asset", "png");
    let (a, b) = (Device::new(), Device::new());
    let (mut base_a, mut base_b) = (empty(), empty());

    let r = round(&a, &phone, &mut base_a);
    assert_eq!(r.pulled.len(), 2, "{r:?}");
    assert!(r.errors.is_empty(), "{:?}", r.errors);
    let r = round(&b, &phone, &mut base_b);
    assert_eq!(r.pulled.len(), 2, "{r:?}");

    a.note("服务器笔记.md", "服务器内容-A 改");
    a.note("A-新笔记.md", "A 新笔记内容");
    let r = round(&a, &phone, &mut base_a);
    assert_eq!(r.pushed.len(), 2, "{r:?}");
    assert!(r.errors.is_empty(), "{:?}", r.errors);
    let r = round(&b, &phone, &mut base_b);
    assert_eq!(r.pulled.len(), 2, "{r:?}");

    b.note("A-新笔记.md", "A 新笔记内容-B 改");
    b.asset(b"b-asset", "png");
    let r = round(&b, &phone, &mut base_b);
    assert_eq!(r.pushed.len(), 2, "{r:?}");
    let r = round(&a, &phone, &mut base_a);
    assert_eq!(r.pulled.len(), 2, "{r:?}");

    assert_eq!(phone.snapshot(), a.snapshot());
    assert_eq!(phone.snapshot(), b.snapshot());
    assert_eq!(phone.snapshot().len(), 4);
    settled(&round(&a, &phone, &mut base_a), 4);
    settled(&round(&b, &phone, &mut base_b), 4);
}

#[test]
fn dual_client_interleaved_same_file_newer_wins() {
    let phone = Device::new();
    phone.note("交错笔记.md", "原始");
    let (a, b) = (Device::new(), Device::new());
    let (mut base_a, mut base_b) = (empty(), empty());
    round(&a, &phone, &mut base_a);
    round(&b, &phone, &mut base_b);

    a.note("交错笔记.md", "A 版本");
    a.set_mtime("交错笔记.md", a.now.get() - HOUR);
    b.note("交错笔记.md", "B 版本");
    b.set_mtime("交错笔记.md", b.now.get() + HOUR);

    let r = round(&a, &phone, &mut base_a);
    assert_eq!(r.pushed.len(), 1, "{r:?}");
    assert!(r.errors.is_empty(), "{:?}", r.errors);
    let r = round(&b, &phone, &mut base_b);
    assert_eq!(r.pushed.len(), 1, "{r:?}");
    assert_eq!(r.merges.len(), 1, "{r:?}");
    assert_eq!(r.merges[0].winner, "local");
    let b_copy = r.merges[0].loser_copy.clone();
    let r = round(&a, &phone, &mut base_a);
    assert_eq!(r.pulled.len(), 1, "{r:?}");

    for d in [&a, &b, &phone] {
        assert_eq!(d.text("交错笔记.md").unwrap(), "B 版本");
    }
    let r = round(&b, &phone, &mut base_b);
    assert_eq!(r.pushed.len(), 1, "{r:?}");
    let r = round(&a, &phone, &mut base_a);
    assert_eq!(r.pulled.len(), 1, "{r:?}");
    assert_eq!(phone.snapshot(), a.snapshot());
    assert_eq!(phone.snapshot(), b.snapshot());
    let copy = phone.snapshot().keys().find(|k| k.contains("冲突")).cloned().unwrap();
    assert_eq!(a.text(&copy).unwrap(), "A 版本");
    assert_eq!(copy, b_copy);
}

#[test]
fn round_demoted_push_corrective_pull_converges() {
    let phone = Device::new();
    let p = "竞态笔记.md";
    phone.note(p, "基础版");
    let (a, b) = (Device::new(), Device::new());
    let (mut base_a, mut base_b) = (empty(), empty());
    round(&a, &phone, &mut base_a);
    round(&b, &phone, &mut base_b);

    a.note(p, "A 旧版");
    a.set_mtime(p, a.now.get() - HOUR);
    let core = begin(&a, &phone, &base_a);

    b.note(p, "B 新版");
    b.set_mtime(p, b.now.get() + HOUR);
    let r = round(&b, &phone, &mut base_b);
    assert_eq!(r.pushed.len(), 1, "{r:?}");

    let report = go_on(core, &a, &phone, &mut base_a);
    assert!(report.errors.is_empty(), "{:?}", report.errors);
    assert_eq!(report.merges.len(), 1, "{report:?}");
    assert_eq!(report.merges[0].winner, "server");
    assert_eq!(report.merges[0].path, p);
    assert!(report.merges[0].loser_copy.contains("冲突"), "{:?}", report.merges[0]);
    assert!(phone.snapshot().values().any(|h| *h == content_hash("A 旧版".as_bytes())));
    assert_eq!(a.text(p).unwrap(), "B 新版");
    assert_eq!(base_a.get(p), Some(&content_hash("B 新版".as_bytes())));

    let r = round(&a, &phone, &mut base_a);
    assert_eq!(r.pulled.len(), 1, "{r:?}");
    let r = round(&b, &phone, &mut base_b);
    assert_eq!(r.pulled.len(), 1, "{r:?}");
    assert_eq!(phone.snapshot(), a.snapshot());
    assert_eq!(phone.snapshot(), b.snapshot());
    assert_eq!(phone.text(p).unwrap(), "B 新版");
    let copy = phone.snapshot().keys().find(|k| k.contains("冲突")).cloned().unwrap();
    assert_eq!(a.text(&copy).unwrap(), "A 旧版");
    settled(&round(&a, &phone, &mut base_a), phone.snapshot().len());
}

#[test]
fn client_lww_server_newer_saves_copy_then_pulls() {
    let phone = Device::new();
    let p = "LWW-笔记.md";
    phone.note(p, "原始");
    let (a, b) = (Device::new(), Device::new());
    let (mut base_a, mut base_b) = (empty(), empty());
    round(&a, &phone, &mut base_a);
    round(&b, &phone, &mut base_b);

    a.note(p, "A 新版");
    a.set_mtime(p, a.now.get() + HOUR);
    b.note(p, "B 旧版");
    let b_mtime = b.now.get() - HOUR;
    b.set_mtime(p, b_mtime);

    let r = round(&a, &phone, &mut base_a);
    assert_eq!(r.pushed.len(), 1, "{r:?}");
    assert!(r.merges.is_empty(), "{r:?}");
    let r = round(&b, &phone, &mut base_b);
    assert!(r.errors.is_empty(), "{:?}", r.errors);
    assert!(r.pushed.is_empty(), "{r:?}");
    assert_eq!(r.merges.len(), 1, "{r:?}");
    let m = &r.merges[0];
    assert_eq!(m.winner, "server");
    assert_eq!(m.path, p);
    assert_eq!(m.loser_mtime_ms, b_mtime);
    assert!(m.loser_copy.contains("冲突"), "{m:?}");
    assert_eq!(b.text(p).unwrap(), "A 新版");
    assert_eq!(b.text(&m.loser_copy).unwrap(), "B 旧版");

    let r = round(&b, &phone, &mut base_b);
    assert_eq!(r.pushed.len(), 1, "{r:?}");
    let r = round(&a, &phone, &mut base_a);
    assert_eq!(r.pulled.len(), 1, "{r:?}");
    assert_eq!(phone.snapshot(), a.snapshot());
    assert_eq!(phone.snapshot(), b.snapshot());
    assert_eq!(phone.text(p).unwrap(), "A 新版");
    settled(&round(&b, &phone, &mut base_b), phone.snapshot().len());
}

#[test]
fn server_mtime_preservation_lww_not_arrival_order() {
    let phone = Device::new();
    let p = "到达顺序笔记.md";
    phone.note(p, "基础");
    let stale = content_hash("基础".as_bytes());
    let now = phone.now.get();
    let pf_a = lanmark::exchange::read_push_file(p, "note", &stale, &"A 的 10:00 编辑".as_bytes().to_vec(), now - HOUR);
    let r = phone.serve_push(&vec![pf_a]);
    assert!(r[0].ok, "{:?}", r[0].error);
    let pf_b =
        lanmark::exchange::read_push_file(p, "note", &stale, &"B 的 10:05 编辑".as_bytes().to_vec(), now - HOUR / 2);
    let r = phone.serve_push(&vec![pf_b]);
    assert!(r[0].ok, "{:?}", r[0].error);
    assert_eq!(phone.text(p).unwrap(), "B 的 10:05 编辑");
    assert!(phone.snapshot().values().any(|h| *h == content_hash("A 的 10:00 编辑".as_bytes())));
}

#[test]
fn delete_propagation_hash_match() {
    let phone = Device::new();
    let p = "删除笔记.md";
    phone.note(p, "内容");
    let (a, b) = (Device::new(), Device::new());
    let (mut base_a, mut base_b) = (empty(), empty());
    round(&a, &phone, &mut base_a);
    round(&b, &phone, &mut base_b);

    a.delete(p);
    assert!(a.has_tombstone(p));
    let r = round(&a, &phone, &mut base_a);
    assert!(r.deleted.iter().any(|x| x == p), "{r:?}");
    assert!(r.errors.is_empty(), "{:?}", r.errors);
    assert!(phone.has_tombstone(p));
    assert!(!phone.has(p));

    let r = round(&b, &phone, &mut base_b);
    assert!(r.deleted.iter().any(|x| x == p), "{r:?}");
    assert!(r.errors.is_empty(), "{:?}", r.errors);
    assert!(!b.has(p));
    assert!(b.has_tombstone(p));
    for d in [&a, &b, &phone] {
        assert!(d.in_trash("内容"));
    }

    let r = round(&a, &phone, &mut base_a);
    assert!(r.pulled.iter().all(|x| x != p), "{r:?}");
    assert!(!a.has(p));
    let r = round(&b, &phone, &mut base_b);
    assert!(r.pulled.iter().all(|x| x != p), "{r:?}");
    assert!(!b.has(p));
}

#[test]
fn delete_vs_edit_edit_newer_resurrects() {
    let phone = Device::new();
    let p = "复活笔记.md";
    phone.note(p, "原始");
    let (a, b) = (Device::new(), Device::new());
    let (mut base_a, mut base_b) = (empty(), empty());
    round(&a, &phone, &mut base_a);
    round(&b, &phone, &mut base_b);

    a.delete(p);
    let del_ms = a.tombstones.borrow().iter().find(|t| t.path == p).unwrap().mtime_ms;
    round(&a, &phone, &mut base_a);
    b.note(p, "B 的新编辑");
    b.set_mtime(p, del_ms + HOUR);

    let r = round(&b, &phone, &mut base_b);
    assert!(r.pushed.iter().any(|x| x == p), "{r:?}");
    assert!(r.errors.is_empty(), "{:?}", r.errors);
    assert_eq!(phone.text(p).unwrap(), "B 的新编辑");
    assert_eq!(b.text(p).unwrap(), "B 的新编辑");
    assert!(!phone.has_tombstone(p));

    let r = round(&a, &phone, &mut base_a);
    assert!(r.pulled.iter().any(|x| x == p), "{r:?}");
    assert_eq!(a.text(p).unwrap(), "B 的新编辑");
    assert!(!a.has_tombstone(p));
}

#[test]
fn delete_vs_edit_delete_newer_soft_deletes() {
    let phone = Device::new();
    let p = "删除赢笔记.md";
    phone.note(p, "原始");
    let (a, b) = (Device::new(), Device::new());
    let (mut base_a, mut base_b) = (empty(), empty());
    round(&a, &phone, &mut base_a);
    round(&b, &phone, &mut base_b);

    b.note(p, "B 的旧编辑");
    b.set_mtime(p, b.now.get() - HOUR);
    a.delete(p);
    round(&a, &phone, &mut base_a);

    let r = round(&b, &phone, &mut base_b);
    assert!(r.deleted.iter().any(|x| x == p), "{r:?}");
    assert!(r.errors.is_empty(), "{:?}", r.errors);
    assert!(!b.has(p));
    assert!(b.in_trash("B 的旧编辑"));
    let r = round(&b, &phone, &mut base_b);
    assert!(r.pulled.iter().all(|x| x != p), "{r:?}");
    assert!(!b.has(p));
    assert!(!a.has(p));
}

#[test]
fn delete_vs_edit_tie_edit_wins() {
    let phone = Device::new();
    let p = "平手笔记.md";
    phone.note(p, "原始");
    let (a, b) = (Device::new(), Device::new());
    let (mut base_a, mut base_b) = (empty(), empty());
    round(&a, &phone, &mut base_a);
    round(&b, &phone, &mut base_b);

    a.delete(p);
    round(&a, &phone, &mut base_a);
    let del_ms = phone.tombstones.borrow().iter().find(|t| t.path == p).unwrap().mtime_ms;
    b.note(p, "B 平手编辑");
    b.set_mtime(p, del_ms);

    let r = round(&b, &phone, &mut base_b);
    assert!(r.pushed.iter().any(|x| x == p), "{r:?}");
    assert_eq!(phone.text(p).unwrap(), "B 平手编辑");
    assert_eq!(b.text(p).unwrap(), "B 平手编辑");
}

#[test]
fn delete_both_sides_already_deleted_skip() {
    let phone = Device::new();
    let p = "双删笔记.md";
    phone.note(p, "内容");
    let (a, b) = (Device::new(), Device::new());
    let (mut base_a, mut base_b) = (empty(), empty());
    round(&a, &phone, &mut base_a);
    round(&b, &phone, &mut base_b);

    a.delete(p);
    round(&a, &phone, &mut base_a);
    b.delete(p);
    let r = round(&b, &phone, &mut base_b);
    assert!(r.errors.is_empty(), "{:?}", r.errors);
    assert!(r.pulled.iter().all(|x| x != p), "{r:?}");
    assert!(!b.has(p));
    let r = round(&a, &phone, &mut base_a);
    assert!(r.errors.is_empty(), "{:?}", r.errors);
    assert!(!a.has(p));
}

#[test]
fn server_deletion_of_the_same_content_wins_over_a_newer_time() {
    let phone = Device::new();
    phone.note("p.md", "同一内容");
    let desk = Device::new();
    let mut base = empty();
    round(&desk, &phone, &mut base);
    phone.delete("p.md");
    desk.set_mtime("p.md", desk.now.get() + HOUR);

    let r = round(&desk, &phone, &mut base);
    assert!(r.errors.is_empty() && r.pushed.is_empty(), "{r:?}");
    assert_eq!(r.deleted, vec!["p.md"]);
    assert!(!desk.has("p.md") && !phone.has("p.md"));
    assert!(desk.in_trash("同一内容"));
    assert!(desk.has_tombstone("p.md"));
}

#[test]
fn d4_recreation_clears_tombstone() {
    let phone = Device::new();
    let p = "重建笔记.md";
    phone.note(p, "旧内容");
    let (a, b) = (Device::new(), Device::new());
    let (mut base_a, mut base_b) = (empty(), empty());
    round(&a, &phone, &mut base_a);
    round(&b, &phone, &mut base_b);

    a.delete(p);
    round(&a, &phone, &mut base_a);
    a.note(p, "重建内容");
    assert!(!a.has_tombstone(p));

    let r = round(&a, &phone, &mut base_a);
    assert!(r.pushed.iter().any(|x| x == p), "{r:?}");
    assert!(r.errors.is_empty(), "{:?}", r.errors);
    assert!(!phone.has_tombstone(p));
    let r = round(&b, &phone, &mut base_b);
    assert!(r.deleted.is_empty(), "{r:?}");
    assert_eq!(b.text(p).unwrap(), "重建内容");
}

#[test]
fn tombstone_ttl_purge() {
    let mut list: Vec<Tombstone> = Vec::new();
    let now = 1_789_633_800_000i64;
    record_tombstone(&mut list, "过期.md", "h1", now - TOMBSTONE_TTL_MS - 1);
    record_tombstone(&mut list, "新鲜.md", "h2", now - 86_400_000);
    assert_eq!(list.len(), 2);
    let removed = purge_expired_tombstones(&mut list, now);
    assert_eq!(removed, 1);
    assert_eq!(list.len(), 1);
    assert_eq!(list[0].path, "新鲜.md");
}

#[test]
fn tombstone_is_kept_to_the_last_millisecond() {
    let mut list: Vec<Tombstone> = Vec::new();
    record_tombstone(&mut list, "a.md", "h", 0);
    assert_eq!(purge_expired_tombstones(&mut list, TOMBSTONE_TTL_MS), 0);
    assert_eq!(purge_expired_tombstones(&mut list, TOMBSTONE_TTL_MS + 1), 1);
    assert!(list.is_empty());
}

#[test]
fn folder_delete_expands_tombstones() {
    let phone = Device::new();
    phone.note("项目/笔记一.md", "一");
    phone.note("项目/笔记二.md", "二");
    let asset = phone.asset(b"dir-asset", "png");
    let (a, b) = (Device::new(), Device::new());
    let (mut base_a, mut base_b) = (empty(), empty());
    round(&a, &phone, &mut base_a);
    round(&b, &phone, &mut base_b);

    a.delete("项目");
    for p in ["项目/笔记一.md", "项目/笔记二.md"] {
        assert!(a.has_tombstone(p));
    }
    assert!(!a.has_tombstone(&asset));
    let r = round(&a, &phone, &mut base_a);
    assert!(r.errors.is_empty(), "{:?}", r.errors);
    assert!(!phone.has("项目/笔记一.md"));
    assert!(!phone.has("项目/笔记二.md"));
    assert!(phone.has(&asset));

    let r = round(&b, &phone, &mut base_b);
    assert!(r.errors.is_empty(), "{:?}", r.errors);
    assert!(!b.has("项目/笔记一.md"), "{r:?}");
    assert!(!b.has("项目/笔记二.md"));
    assert!(b.has(&asset));
    assert!(b.in_trash("一") && b.in_trash("二"));
    assert_eq!(phone.snapshot(), a.snapshot());
    assert_eq!(phone.snapshot(), b.snapshot());
    assert!(phone.snapshot().keys().all(|k| !k.starts_with("项目")));
    assert!(phone.snapshot().contains_key(&asset));
}

#[test]
fn stale_restore_from_trash_keeps_deletion() {
    let phone = Device::new();
    let p = "恢复笔记.md";
    phone.note(p, "内容甲");
    let a = Device::new();
    let mut base = empty();
    round(&a, &phone, &mut base);
    let (bytes, mtime) = a.files.borrow().get(p).cloned().unwrap();
    a.delete(p);
    round(&a, &phone, &mut base);

    // Back from the trash with its old time, without a word to the tombstones.
    a.files.borrow_mut().insert(p.to_string(), (bytes, mtime));
    let r = round(&a, &phone, &mut base);
    assert!(r.errors.is_empty(), "{:?}", r.errors);
    assert!(r.pushed.iter().all(|x| x != p), "{r:?}");
    assert!(!a.has(p));
    assert!(!phone.has(p));
}

#[test]
fn restore_and_edit_resurrects() {
    let phone = Device::new();
    let p = "恢复编辑笔记.md";
    phone.note(p, "内容甲");
    let (a, b) = (Device::new(), Device::new());
    let (mut base_a, mut base_b) = (empty(), empty());
    round(&a, &phone, &mut base_a);
    round(&b, &phone, &mut base_b);

    a.delete(p);
    round(&a, &phone, &mut base_a);
    let at = a.tick();
    a.files.borrow_mut().insert(p.to_string(), ("恢复后的编辑".as_bytes().to_vec(), at));
    let r = round(&a, &phone, &mut base_a);
    assert!(r.pushed.iter().any(|x| x == p), "{r:?}");
    assert!(r.errors.is_empty(), "{:?}", r.errors);
    assert_eq!(phone.text(p).unwrap(), "恢复后的编辑");
    let r = round(&b, &phone, &mut base_b);
    assert!(r.pulled.iter().any(|x| x == p), "{r:?}");
    assert_eq!(b.text(p).unwrap(), "恢复后的编辑");
}

#[test]
fn rename_propagates_old_path_deletion() {
    let phone = Device::new();
    phone.note("改名前.md", "保留的内容");
    let (a, b) = (Device::new(), Device::new());
    let (mut base_a, mut base_b) = (empty(), empty());
    round(&a, &phone, &mut base_a);
    round(&b, &phone, &mut base_b);

    let now = a.tick();
    let bytes = a.files.borrow().get("改名前.md").unwrap().0.clone();
    let name = CleanName { raw: "改名后".into(), with_ext: "改名后".into(), plain: "改名后".into() };
    let mut list = a.tombstones.borrow().clone();
    let new = entry_rename_op(
        &mut list,
        &vec![("改名前.md".to_string(), Some(bytes))],
        VAULT,
        "改名前.md",
        &name,
        &facts(),
        now,
        |n| a.has(n),
        |new, gone| {
            assert_eq!(gone.last().unwrap().path, "改名前.md");
            let (bytes, _) = a.files.borrow_mut().remove("改名前.md").unwrap();
            a.write(new, &bytes);
            Ok(vec![new.clone()])
        },
    );
    assert_eq!(new.unwrap(), "改名后.md");
    *a.tombstones.borrow_mut() = list;
    assert!(a.has_tombstone("改名前.md"));

    let r = round(&a, &phone, &mut base_a);
    assert!(r.deleted.iter().any(|x| x == "改名前.md"), "{r:?}");
    assert!(r.pushed.iter().any(|x| x == "改名后.md"), "{r:?}");
    assert!(r.errors.is_empty(), "{:?}", r.errors);
    assert!(!phone.has("改名前.md"));
    assert_eq!(phone.text("改名后.md").unwrap(), "保留的内容");
    let r = round(&b, &phone, &mut base_b);
    assert!(r.deleted.iter().any(|x| x == "改名前.md"), "{r:?}");
    assert!(!b.has("改名前.md"));
    assert_eq!(b.text("改名后.md").unwrap(), "保留的内容");
    assert!(b.in_trash("保留的内容"));
}

#[test]
fn sync_round_asset_pull_and_dedup() {
    let phone = Device::new();
    let asset = phone.asset(b"binary-image-data", "png");
    let desk = Device::new();
    let r = round(&desk, &phone, &mut empty());
    assert_eq!(r.pulled, vec![asset.clone()]);
    assert_eq!(desk.files.borrow().get(&asset).unwrap().0, b"binary-image-data".to_vec());
}

#[test]
fn sync_creates_parent_dirs_and_preserves_asset_names() {
    let phone = Device::new();
    phone.note("手机笔记.md", "手机内容");
    let desk = Device::new();
    desk.note("工作/会议纪要.md", "# 纪要\n\n内容");
    desk.write("assets/示例图片.png", "fake-png-数据".as_bytes());
    desk.write("工作/GBK笔记.md", &[0xC4, 0xE3, 0xBA, 0xC3]);
    let mut base = empty();
    let r = round(&desk, &phone, &mut base);
    assert!(r.errors.is_empty(), "{:?}", r.errors);
    assert_eq!(r.pushed.len(), 3, "{r:?}");
    assert_eq!(r.pulled.len(), 1, "{r:?}");
    assert_eq!(phone.text("工作/会议纪要.md").unwrap(), "# 纪要\n\n内容");
    assert_eq!(phone.files.borrow().get("assets/示例图片.png").unwrap().0, "fake-png-数据".as_bytes().to_vec());
    assert_eq!(phone.files.borrow().get("工作/GBK笔记.md").unwrap().0, vec![0xC4, 0xE3, 0xBA, 0xC3]);
    let meta = phone.manifest().into_iter().find(|m| m.path == "assets/示例图片.png").unwrap();
    assert_eq!(meta.hash, content_hash("fake-png-数据".as_bytes()));
    settled(&round(&desk, &phone, &mut base), 4);
}

#[test]
fn manifest_reflects_external_disk_changes() {
    let phone = Device::new();
    phone.note("外部改动.md", "初始内容");
    phone.files.borrow_mut().get_mut("外部改动.md").unwrap().0 = "外部改过的内容".as_bytes().to_vec();
    let meta = phone.manifest().into_iter().find(|m| m.path == "外部改动.md").unwrap();
    assert_eq!(meta.hash, content_hash("外部改过的内容".as_bytes()));
    let (files, missing) = phone.serve_pull(&vec!["外部改动.md".to_string()]);
    assert!(missing.is_empty());
    assert_eq!(files[0].hash, content_hash("外部改过的内容".as_bytes()));
}

#[test]
fn a_round_of_many_files_goes_in_batches() {
    let phone = Device::new();
    let desk = Device::new();
    for i in 0..70 {
        phone.note(&format!("p{i:02}.md"), "手机");
    }
    for i in 0..20 {
        desk.note(&format!("d{i:02}.md"), "桌面");
    }
    let mut base = empty();
    let r = round(&desk, &phone, &mut base);
    assert_eq!(r.pulled.len(), 70);
    assert_eq!(r.pushed.len(), 20);
    assert_eq!(phone.snapshot(), desk.snapshot());
    settled(&round(&desk, &phone, &mut base), 90);
}

#[test]
fn a_round_ends_where_the_server_goes_away() {
    let phone = Device::new();
    phone.note("a.md", "内容");
    let desk = Device::new();
    desk.note("b.md", "内容");
    let base = empty();
    let mut core = begin(&desk, &phone, &base);
    let gone = |_: &Vec<String>| -> Fetched { pull_batch(Answer::NoConnection("断了".to_string())) };
    assert_eq!(core.pull_phase(gone, |f| desk.store(f)).unwrap_err(), "拉取失败: 断了");
    let err = core
        .push_phase(
            |p| desk.files.borrow().get(p).cloned(),
            |_| push_batch(Answer::Status(500, "500 Internal Server Error".to_string(), Err(String::new()))),
            gone,
            |f| desk.store(f),
        )
        .unwrap_err();
    assert_eq!(err, "推送失败（HTTP 500 Internal Server Error）");
    assert!(!desk.has("a.md"));
}

#[test]
fn round_reports_what_goes_wrong() {
    let phone = Device::new();
    phone.note("拉.md", "甲");
    phone.note("争.md", "服务器");
    let desk = Device::new();
    desk.note("推.md", "乙");
    desk.note("争.md", "本地");
    desk.set_mtime("争.md", 1);
    let base = empty();
    let mut core = begin(&desk, &phone, &base);
    let refuse = |paths: &Vec<String>| -> Fetched {
        Ok((Vec::new(), paths.iter().map(|p| (p.clone(), "不给".to_string())).collect()))
    };
    core.resolve_conflicts(refuse, |_| Err("x".to_string()), |_, _, _| Err("x".to_string()), |_| None);
    core.pull_phase(refuse, |_| None).unwrap();
    core.push_phase(
        |_| None,
        |_| Ok(Vec::new()),
        refuse,
        |_| None,
    )
    .unwrap();
    let (_, report) = core.finish();
    assert_eq!(report.errors, vec!["冲突副本拉取失败 争.md: 不给", "拉取失败 拉.md: 不给", "推送读取失败: 推.md"]);
    assert!(report.pulled.is_empty() && report.pushed.is_empty());

    // The server's version is newer, but the local one cannot be kept.
    let serve = |paths: &Vec<String>| -> Fetched { Ok(phone.serve_pull(paths)) };
    let mut core = begin(&desk, &phone, &base);
    core.resolve_conflicts(serve, |_| Err("坏".to_string()), |_, _, _| Err("x".to_string()), |_| None);
    assert_eq!(core.report.errors, vec!["读取本地版本失败 争.md: 坏"]);
    let mut core = begin(&desk, &phone, &base);
    core.resolve_conflicts(serve, |_| Ok(vec![1]), |_, _, _| Err("满".to_string()), |_| None);
    assert_eq!(core.report.errors, vec!["冲突副本落盘失败 争.md: 满"]);
    let mut core = begin(&desk, &phone, &base);
    core.resolve_conflicts(serve, |_| Ok(vec![1]), |_, _, _| Ok("c".to_string()), |_| Some("写不了".to_string()));
    assert_eq!(core.report.errors, vec!["写不了"]);
    assert!(core.report.merges.is_empty());
    let mut core = begin(&desk, &phone, &base);
    core.resolve_conflicts(|_: &Vec<String>| -> Fetched { Ok((Vec::new(), Vec::new())) }, |_| Ok(vec![1]), |_, _, _| Ok("c".to_string()), |_| None);
    assert_eq!(core.report.errors, vec!["冲突副本拉取为空: 争.md"]);
}

#[test]
fn conflict_where_this_side_is_newer_pushes_though_the_copy_fails() {
    let phone = Device::new();
    phone.note("争.md", "服务器");
    phone.set_mtime("争.md", 1);
    let desk = Device::new();
    desk.note("争.md", "本地");
    let base = empty();
    let serve = |paths: &Vec<String>| -> Fetched { Ok(phone.serve_pull(paths)) };
    let mut core = begin(&desk, &phone, &base);
    core.resolve_conflicts(serve, |_| Ok(vec![1]), |_, _, _| Err("满".to_string()), |_| None);
    assert_eq!(core.report.errors, vec!["冲突副本落盘失败 争.md: 满"]);
    assert_eq!(core.to_push, vec![("争.md".to_string(), content_hash("服务器".as_bytes()))]);

    let broken = |_: &Vec<String>| -> Fetched {
        let mut f = phone.serve_pull(&vec!["争.md".to_string()]).0;
        f[0].content_base64 = "*".to_string();
        Ok((f, Vec::new()))
    };
    let mut core = begin(&desk, &phone, &base);
    core.resolve_conflicts(broken, |_| Ok(vec![1]), |_, _, _| Ok("c".to_string()), |_| None);
    assert_eq!(core.report.errors.len(), 1);
    assert!(core.report.errors[0].starts_with("冲突副本解码失败 争.md: base64 解码失败: "));
    assert!(core.to_push.is_empty());
}

#[test]
fn pulled_files_must_be_what_the_server_says() {
    let phone = Device::new();
    phone.note("a.md", "内容");
    let good = phone.serve_pull(&vec!["a.md".to_string()]).0.remove(0);
    let write = |_: &String, _: &FileWrite| None::<StoreFault>;
    assert_eq!(store_pulled(VAULT, &good, 7, write), None);
    let kept = |abs: &String, w: &FileWrite| {
        assert_eq!(abs, "/vault/a.md");
        assert_eq!(w.path, "a.md");
        assert_eq!(w.bytes, "内容".as_bytes());
        assert_eq!(w.time_ms, Some(good.mtime_ms as u64));
        let row = w.row.as_ref().unwrap();
        assert_eq!((row.path.as_str(), row.body.as_str(), row.mtime_ms), ("a.md", "内容", 7));
        assert_eq!(row.hash, good.hash);
        assert!(w.revives);
        None::<StoreFault>
    };
    assert_eq!(store_pulled(VAULT, &good, 7, kept), None);
    let mut f = good.clone();
    f.kind = "asset".to_string();
    f.path = "assets/x.png".to_string();
    f.mtime_ms = 0;
    let timeless = |abs: &String, w: &FileWrite| {
        assert_eq!(abs, "/vault/assets/x.png");
        assert!(w.time_ms.is_none() && w.row.is_none() && !w.revives);
        None::<StoreFault>
    };
    assert_eq!(store_pulled(VAULT, &f, 7, timeless), None);
    let mut f = good.clone();
    f.hash = "00".to_string();
    assert_eq!(store_pulled(VAULT, &f, 7, write).unwrap(), "a.md: 内容 hash 不符");
    let mut f = good.clone();
    f.kind = "图".to_string();
    assert_eq!(store_pulled(VAULT, &f, 7, write).unwrap(), "a.md: 未知类型 图");
    let mut f = good.clone();
    f.kind = "asset".to_string();
    assert_eq!(store_pulled(VAULT, &f, 7, write).unwrap(), "a.md: 附件路径非法");
    let mut f = good.clone();
    f.kind = "asset".to_string();
    f.path = "assets//x.png".to_string();
    assert_eq!(store_pulled(VAULT, &f, 7, write).unwrap(), "assets//x.png: 路径非法: 非法路径: assets//x.png");
    let mut f = good.clone();
    f.path = "../a.md".to_string();
    assert_eq!(store_pulled(VAULT, &f, 7, write).unwrap(), "../a.md: 写入失败");
    let mut f = good.clone();
    f.content_base64 = "???".to_string();
    assert!(store_pulled(VAULT, &f, 7, write).unwrap().starts_with("a.md: base64 解码失败: "));
    let dir = |_: &String, _: &FileWrite| Some(StoreFault::Dir("满".to_string()));
    assert_eq!(store_pulled(VAULT, &good, 7, dir).unwrap(), "a.md: 创建目录失败: 满");
    assert_eq!(store_pulled(VAULT, &good, 7, |_, _| Some(StoreFault::Note)).unwrap(), "a.md: 写入失败");
    let asset = |_: &String, _: &FileWrite| Some(StoreFault::Asset("满".to_string()));
    assert_eq!(store_pulled(VAULT, &good, 7, asset).unwrap(), "a.md: 附件写入失败: 满");
}

#[test]
fn correction_that_fails_leaves_the_pushed_hash_as_baseline() {
    let phone = Device::new();
    phone.note("a.md", "基础");
    let desk = Device::new();
    let mut base = empty();
    round(&desk, &phone, &mut base);
    desk.note("a.md", "桌面");
    desk.set_mtime("a.md", 1);
    let mut core = begin(&desk, &phone, &base);
    phone.note("a.md", "手机又改");
    let pushed = content_hash("桌面".as_bytes());
    let gone = |_: &Vec<String>| -> Fetched { Err("断".to_string()) };
    core.push_phase(
        |p| desk.files.borrow().get(p).cloned(),
        |b| Ok(phone.serve_push(b)),
        gone,
        |f| desk.store(f),
    )
    .unwrap();
    assert_eq!(core.report.errors, vec!["a.md: 降级纠正拉取失败: 断"]);
    assert_eq!(core.baseline.get("a.md"), Some(&pushed));
    assert!(core.report.pushed.is_empty());
}

#[test]
fn answers_for_pushes_are_taken_as_they_come() {
    let phone = Device::new();
    let desk = Device::new();
    desk.note("a.md", "内容");
    let base = empty();
    let answer = |ok: bool, error: Option<String>, server_hash: Option<String>| PushResult {
        path: "a.md".to_string(),
        ok,
        error,
        conflict_saved_as: None,
        server_hash,
    };
    let refuse = |_: &Vec<String>| -> Fetched { Err("x".to_string()) };
    let run = |list: Vec<PushResult>| {
        let mut core = begin(&desk, &phone, &base);
        let list = RefCell::new(Some(list));
        core.push_phase(
            |p| desk.files.borrow().get(p).cloned(),
            |_| Ok(list.borrow_mut().take().unwrap()),
            refuse,
            |_| None,
        )
        .unwrap();
        core.finish()
    };
    let (b, r) = run(vec![answer(false, Some("满了".to_string()), None)]);
    assert_eq!(r.errors, vec!["推送失败 a.md: 满了"]);
    assert!(b.get("a.md").is_none());
    let (_, r) = run(vec![answer(false, None, None)]);
    assert_eq!(r.errors, vec!["推送失败 a.md: "]);
    let (b, r) = run(vec![answer(true, None, None)]);
    assert_eq!(r.pushed, vec!["a.md"]);
    assert_eq!(b.get("a.md"), Some(&content_hash("内容".as_bytes())));
    let stranger = PushResult { path: "b.md".to_string(), ..answer(true, None, None) };
    let (_, r) = run(vec![stranger]);
    assert!(r.pushed.is_empty() && r.errors.is_empty());
}

#[test]
fn sync_round_race_on_server_side_conflict_naming() {
    let phone = Device::new();
    let p = "竞态笔记.md";
    phone.note(p, "手机版本一");
    let desk = Device::new();
    let mut base = empty();
    let r0 = round(&desk, &phone, &mut base);
    assert_eq!(r0.pulled.len(), 1);

    let manifest = fetch_manifest(Answer::Status(200, "200 OK".to_string(), Ok(phone.manifest()))).unwrap();
    let stale_hash = manifest.iter().find(|m| m.path == p).unwrap().hash.clone();

    desk.note(p, "桌面版本");
    desk.set_mtime(p, desk.now.get() + 3_600_000);
    phone.note(p, "手机版本二");

    let (bytes, mtime) = desk.files.borrow().get(p).cloned().unwrap();
    let pf = read_push_file(p, "note", &stale_hash, &bytes, mtime);
    let pushed_hash = pf.hash.clone();
    let results =
        push_batch(Answer::Status(200, "200 OK".to_string(), Ok(phone.serve_push(&vec![pf])))).unwrap();
    assert_eq!(results.len(), 1);
    assert!(results[0].ok, "竞态 push 应成功: {:?}", results[0].error);
    let server_copy = results[0].conflict_saved_as.clone().expect("服务器侧应有冲突副本");
    assert!(server_copy.contains("冲突"), "服务器侧冲突命名: {server_copy}");
    assert_eq!(results[0].server_hash.as_deref(), Some(pushed_hash.as_str()));
    assert_eq!(phone.text(p).unwrap(), "桌面版本");
    assert_eq!(phone.text(&server_copy).unwrap(), "手机版本二");

    let r1 = round(&desk, &phone, &mut base);
    assert_eq!(r1.pulled.len(), 1, "拉回服务器侧冲突副本: {r1:?}");
    assert!(r1.merges.is_empty(), "{r1:?}");
    assert!(r1.errors.is_empty(), "{r1:?}");
    assert_eq!(desk.text(&server_copy).unwrap(), "手机版本二");
}

#[test]
fn migration_prevents_false_conflict_storm() {
    let phone = Device::new();
    phone.note("共享笔记.md", "同一份内容");
    let (url, token, device_id) = ("http://127.0.0.1:4180", "tok", "device-1");
    let old_id = format!("s{}", &content_hash(format!("{url}{token}").as_bytes())[..8]);
    let mut servers = vec![ServerProfile {
        id: old_id.clone(),
        name: "手机".to_string(),
        url: url.to_string(),
        token: token.to_string(),
        device_id: String::new(),
        ..Default::default()
    }];
    let desk = Device::new();
    let states: RefCell<BTreeMap<String, StrMap<String>>> = RefCell::new(BTreeMap::new());
    states.borrow_mut().insert(sync_state_path(VAULT, &old_id), empty());
    let run = |id: &str| {
        let path = sync_state_path(VAULT, id);
        let mut base = states.borrow_mut().remove(&path).unwrap_or_else(empty);
        let r = round(&desk, &phone, &mut base);
        states.borrow_mut().insert(path, base);
        r
    };

    let r1 = run(&servers[0].id);
    assert!(r1.errors.is_empty(), "{:?}", r1.errors);
    assert_eq!(r1.pulled.len(), 1);

    let n = migrate_profiles_to_device_id(
        VAULT,
        &mut servers,
        |_| {
            Ok(InfoResponse {
                app: "lanmark".to_string(),
                name: "手机".to_string(),
                device_id: device_id.to_string(),
                notes: 1,
                assets: 0,
            })
        },
        |path| states.borrow().contains_key(path),
        |from, to| {
            let s = states.borrow_mut().remove(from).unwrap();
            states.borrow_mut().insert(to.clone(), s);
            true
        },
    );
    assert_eq!(n, 1);
    assert_eq!(servers[0].device_id, device_id);
    assert!(states.borrow().contains_key(&sync_state_path(VAULT, &servers[0].id)));

    let r2 = run(&servers[0].id);
    assert!(r2.errors.is_empty(), "{:?}", r2.errors);
    assert!(r2.merges.is_empty(), "迁移后不得出现假冲突: {:?}", r2.merges);
    assert!(r2.pushed.is_empty(), "无改动不该推送: {:?}", r2.pushed);
    assert!(r2.pulled.is_empty(), "无改动不该拉取: {:?}", r2.pulled);
}

#[test]
fn files_arrive_as_they_were_sent() {
    let phone = Device::new();
    let bytes: Vec<u8> = vec![0, 255, 254, 10, 13, 0];
    let asset = phone.asset(&bytes, "bin");
    let (files, missing) = phone.serve_pull(&vec![asset.clone(), "别处.md".to_string()]);
    assert_eq!(missing, vec![("别处.md".to_string(), "不在服务器清单中".to_string())]);
    assert_eq!(files.len(), 1);
    assert_eq!(files[0].hash, content_hash(&bytes));
    let desk = Device::new();
    assert_eq!(desk.store(&files[0]), None);
    assert_eq!(desk.files.borrow().get(&asset).unwrap().0, bytes);

    let pf = read_push_file(&asset, "asset", "", &bytes, 5);
    assert_eq!(pushed_content(&pf), Ok(bytes.clone()));
    assert_eq!(pf.hash, content_hash(&bytes));
    assert_eq!(pf.content_base64, "AP/+Cg0A");
}

#[test]
fn a_round_ends_where_the_disk_refuses() {
    let phone = Device::new();
    let desk = Device::new();
    let p = "坏盘.md";
    desk.note(p, "内容");
    desk.set_mtime(p, 1_000);
    record_tombstone(&mut phone.tombstones.borrow_mut(), p, &content_hash("内容".as_bytes()), 2_000);
    let tried = RefCell::new(Vec::new());
    let r = sync_round(
        begin(&desk, &phone, &empty()),
        |step| {
            tried.borrow_mut().push(format!("{step:?}"));
            match step {
                DiskStep::SoftDelete(p) => Some(format!("{p}: 本地软删失败: 只读")),
                _ => None,
            }
        },
        |_| panic!("deletes"),
        |_| -> Fetched { panic!("fetches") },
        |_| panic!("reads"),
        |_, _, _| panic!("copies"),
        |_| panic!("stores"),
        |_| panic!("loads"),
        |_| panic!("pushes"),
    );
    assert_eq!(r.err(), Some("坏盘.md: 本地软删失败: 只读".to_string()));
    assert_eq!(tried.borrow().len(), 1, "{tried:?}");
}

#[test]
fn an_idle_round_asks_nobody() {
    let phone = Device::new();
    phone.note("a.md", "同");
    let desk = Device::new();
    let mut base = empty();
    round(&desk, &phone, &mut base);
    let (next, report) = sync_round(
        begin(&desk, &phone, &base),
        |_| panic!("acts"),
        |_| panic!("deletes"),
        |_| -> Fetched { panic!("fetches") },
        |_| panic!("reads"),
        |_, _, _| panic!("copies"),
        |_| panic!("stores"),
        |_| panic!("loads"),
        |_| panic!("pushes"),
    )
    .ok()
    .unwrap();
    settled(&report, 1);
    assert_eq!(next.get("a.md"), Some(&content_hash("同".as_bytes())));
}
