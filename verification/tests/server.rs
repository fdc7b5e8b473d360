//! The server: access, pairing, and what it takes in and gives out.
use std::cell::RefCell;
use std::collections::BTreeMap;

use lanmark::exchange::read_push_file;
use lanmark::fs_ops::content_hash;
use lanmark::sync::{b64_encode, conflict_copy_name, FileMeta, PushFile};
use lanmark::sync_server::{
    arbitrate_existing, bind_listener, check_token, conflict_count, const_eq, delete_blocking, gen_nonce, gen_pairing_code, gen_token,
    light_stats, nonce_text, pair, pairing_code_of, pairing_info, pull_blocking, push_blocking,
    push_result, service_instance_name, sync_config_path, write_pushed_file, BindFault, Current, Landed, PairGuard, PairVerdict,
    SyncConfig, Verdict, WriteFault, PAIR_LOCK_NS, PAIR_MAX_FAILURES,
};
use lanmark::tree::{Entry, EntryKind};

#[test]
fn pairing_code_is_8_digits_and_varies() {
    let a = gen_pairing_code("1");
    let b = gen_pairing_code("2");
    assert_eq!(a.len(), 8);
    assert!(a.chars().all(|c| c.is_ascii_digit()));
    assert_ne!(a, b, "连续两次生成应不同");
    assert_eq!(gen_pairing_code("abc"), "60213174");
    assert_eq!(pairing_code_of(&vec![0, 9, 10, 19, 255, 1, 2, 3]), "09095123");
}

#[test]
fn nonce_is_unique_and_hex() {
    let a = gen_nonce("1");
    let b = gen_nonce("2");
    assert_eq!(a.len(), 32);
    assert!(a.chars().all(|c| c.is_ascii_hexdigit()));
    assert_ne!(a, b);
    assert_eq!(gen_nonce("abc"), "ba7816bf8f01cfea414140de5dae2223");
    assert_eq!(nonce_text(&(0..32).collect()), "000102030405060708090a0b0c0d0e0f");
    assert_eq!(gen_token("abc"), "ba7816bf8f01cfea414140de5dae2223b00361a396177a9cb410ff61f20015ad");
}

#[test]
fn const_eq_semantics() {
    assert!(const_eq("abc", "abc"));
    assert!(const_eq("", ""));
    assert!(!const_eq("abc", "abd"));
    assert!(!const_eq("abc", "ab"));
    assert!(!const_eq("a", ""));
}

#[test]
fn vault_switch_updates_pairing_live() {
    let mut a = SyncConfig::fresh(gen_pairing_code("a"));
    let mut b = SyncConfig::fresh(gen_pairing_code("b"));
    assert_ne!(a.pairing_code, b.pairing_code, "两库配对码应独立");
    let mut guard = PairGuard::default();
    let v = guard.attempt(1, &a.pairing_code.clone(), &a.pairing_code);
    pair(&mut a, &v, "token-a").unwrap();
    assert!(check_token(Some("Bearer token-a"), Some(&a)).is_ok());

    let r = check_token(Some("Bearer token-a"), Some(&b)).unwrap_err();
    assert_eq!(r.status, 403, "旧库 token 应被拒");
    let v = guard.attempt(2, &b.pairing_code.clone(), &b.pairing_code);
    pair(&mut b, &v, "token-b").unwrap();
    assert!(check_token(Some("Bearer token-b"), Some(&b)).is_ok(), "新库 token 应可用");
}

#[test]
fn access_needs_a_token_that_was_given_out() {
    let mut cfg = SyncConfig::fresh("12345678".into());
    assert_eq!(check_token(None, Some(&cfg)).unwrap_err().status, 401);
    assert_eq!(check_token(Some("Basic x"), Some(&cfg)).unwrap_err().status, 401);
    assert_eq!(check_token(Some("Bearer "), Some(&cfg)).unwrap_err().status, 401);
    assert_eq!(check_token(Some("Bearer x"), None).unwrap_err().status, 409);
    assert_eq!(check_token(Some("Bearer x"), Some(&cfg)).unwrap_err().status, 403);
    cfg.tokens.push("x".into());
    assert!(check_token(Some("Bearer x"), Some(&cfg)).is_ok());
    assert!(check_token(Some("Bearer xx"), Some(&cfg)).is_err());
}

#[test]
fn pair_locks_after_repeated_failures() {
    let code = "12345678";
    let mut cfg = SyncConfig::fresh(code.into());
    let mut guard = PairGuard::default();
    for i in 0..PAIR_MAX_FAILURES {
        let v = guard.attempt(i as u64, "00000000", code);
        let r = pair(&mut cfg, &v, "t").unwrap_err();
        assert_eq!(r.status, 403, "第 {i} 次应为 403");
    }
    let v = guard.attempt(100, code, code);
    let r = pair(&mut cfg, &v, "t").unwrap_err();
    assert_eq!(r.status, 429);
    assert!(r.message.contains("后重试"), "{}", r.message);
    assert!(cfg.tokens.is_empty());
    let later = 9 + PAIR_LOCK_NS + 1;
    assert!(matches!(guard.attempt(later, " 12345678\n", code), PairVerdict::Right));
}

#[test]
fn a_right_code_forgets_the_wrong_ones() {
    let mut guard = PairGuard::default();
    for _ in 0..9 {
        guard.attempt(1, "x", "y");
    }
    assert!(matches!(guard.attempt(1, "y", "y"), PairVerdict::Right));
    for _ in 0..9 {
        assert!(matches!(guard.attempt(1, "x", "y"), PairVerdict::Wrong));
    }
    assert!(matches!(guard.attempt(1, "y", "y"), PairVerdict::Right));
}

/// A server whose files are a map.
struct Server {
    files: RefCell<BTreeMap<String, (Vec<u8>, i64)>>,
}

impl Server {
    fn push(&self, pf: &PushFile) -> Result<Landed, String> {
        write_pushed_file(
            pf,
            9,
            |path| match self.files.borrow().get(path) {
                None => Current::Nothing,
                Some((b, m)) => Current::Content(b.clone(), *m),
            },
            |path, kind, loser| {
                assert_eq!(kind, &pf.kind);
                let name = conflict_copy_name(path, 0, |n| self.files.borrow().contains_key(n))?;
                self.files.borrow_mut().insert(name.clone(), (loser.clone(), 0));
                Ok(name)
            },
            |path| {
                self.files.borrow_mut().remove(path);
            },
            |w| {
                assert!(w.revives);
                assert_eq!(w.row.is_some(), pf.kind == "note");
                let time = w.time_ms.unwrap_or(0) as i64;
                self.files.borrow_mut().insert(w.path.clone(), (w.bytes.clone(), time));
                None::<WriteFault>
            },
        )
    }

    fn text(&self, path: &str) -> String {
        String::from_utf8(self.files.borrow().get(path).unwrap().0.clone()).unwrap()
    }
}

fn note(path: &str, content: &str, mtime_ms: i64, base_hash: &str) -> PushFile {
    read_push_file(path, "note", base_hash, &content.as_bytes().to_vec(), mtime_ms)
}

#[test]
fn server_end_to_end_pair_manifest_pull_push_conflict() {
    let s = Server { files: RefCell::new(BTreeMap::new()) };
    let l = s.push(&note("n.md", "桌面版本", 100, "")).unwrap();
    assert_eq!(l.conflict_saved_as, None);
    assert_eq!(l.server_hash, content_hash("桌面版本".as_bytes()));

    let third = "第三方版本";
    let r = push_blocking(&vec![note("n.md", third, 200, "stale-hash")], |pf| s.push(pf));
    assert!(r[0].ok, "冲突 push 也应成功: {:?}", r[0].error);
    let conflict_path = r[0].conflict_saved_as.clone().expect("应有冲突副本");
    assert!(conflict_path.contains("冲突"), "冲突命名: {conflict_path}");
    assert_eq!(r[0].server_hash.as_deref(), Some(content_hash(third.as_bytes()).as_str()));
    assert_eq!(s.text("n.md"), third);
    assert_eq!(s.text(&conflict_path), "桌面版本");

    let fourth = "更旧版本";
    let r = push_blocking(&vec![note("n.md", fourth, 50, "stale-hash-2")], |pf| s.push(pf));
    assert!(r[0].ok);
    let loser_copy = r[0].conflict_saved_as.clone().expect("降级来件应有冲突副本");
    assert_ne!(loser_copy, conflict_path);
    assert_eq!(r[0].server_hash.as_deref(), Some(content_hash(third.as_bytes()).as_str()));
    assert_eq!(s.text("n.md"), third);
    assert_eq!(s.text(&loser_copy), fourth);

    let mut fake = note("伪造.md", "x", 1, "");
    fake.hash = "deadbeef".into();
    let r = push_blocking(&vec![fake], |pf| s.push(pf));
    assert!(!r[0].ok);
    assert!(r[0].error.as_deref().unwrap().contains("hash 不符"));

    let r = delete_blocking(&vec!["n.md".to_string()], |_| Ok(".lanmark/trash/1-n.md".to_string()));
    assert!(r[0].ok);
    assert!(r[0].conflict_saved_as.as_deref().unwrap().starts_with(".lanmark/trash/"));

    let r = push_blocking(&vec![note(".lanmark/evil.md", "# evil", 1, "")], |pf| s.push(pf));
    assert!(!r[0].ok, "点目录 push 必须拒绝");
    assert!(!s.files.borrow().contains_key(".lanmark/evil.md"));

    let dots = vec![".lanmark/lanmark.db".to_string(), ".lanmark/sync.json".to_string()];
    let r = delete_blocking(&dots, |_| panic!("deleted"));
    assert!(!r[0].ok && !r[1].ok, "点目录 delete 必须拒绝");
}

#[test]
fn pushed_files_are_looked_at_before_they_land() {
    let s = Server { files: RefCell::new(BTreeMap::new()) };
    let err = |pf: PushFile| s.push(&pf).unwrap_err();
    let mut f = note("a.txt", "x", 1, "");
    assert!(!err(f).is_empty());
    f = note("a.md", "x", 1, "");
    f.kind = "bild".into();
    assert_eq!(err(f), "未知类型: bild");
    f = note("x.png", "x", 1, "");
    f.kind = "asset".into();
    assert_eq!(err(f), "附件路径非法: x.png");
    f = note("assets/../x.png", "x", 1, "");
    f.kind = "asset".into();
    assert!(!err(f).is_empty());
    f = note("a.md", "x", 1, "");
    f.content_base64 = "?".into();
    assert!(err(f).contains("base64"));
    assert!(s.files.borrow().is_empty());

    let write = |w: Option<WriteFault>| {
        let w = RefCell::new(w);
        let look = |_: &String| Current::Nothing;
        let keep = |_: &String, _: &String, _: &Vec<u8>| Ok(String::new());
        write_pushed_file(&note("a.md", "x", 1, ""), 9, look, keep, |_| panic!("removed"), |_| w.borrow_mut().take())
    };
    assert_eq!(write(Some(WriteFault::Path("p".into()))).unwrap_err(), "p");
    assert_eq!(write(Some(WriteFault::Dir("d".into()))).unwrap_err(), "创建目录失败: d");
    assert_eq!(write(Some(WriteFault::Note("n".into()))).unwrap_err(), "写入失败: n");
    assert_eq!(write(Some(WriteFault::Asset("a".into()))).unwrap_err(), "附件写入失败: a");
    assert!(write(None).is_ok());
    let unread = write_pushed_file(
        &note("a.md", "x", 1, ""),
        9,
        |_| Current::Unreadable("坏".into()),
        |_, _, _| panic!("kept"),
        |_| panic!("removed"),
        |_| panic!("written"),
    );
    assert_eq!(unread.unwrap_err(), "读取当前版本失败: 坏");
    let full = write_pushed_file(
        &note("a.md", "x", 1, ""),
        9,
        |_| Current::Content(b"y".to_vec(), 0),
        |_, _, _| Err("满".into()),
        |_| panic!("removed"),
        |_| panic!("written"),
    );
    assert_eq!(full.unwrap_err(), "冲突副本落盘失败: 满");
}

#[test]
fn a_version_that_loses_is_kept_then_removed_then_written_over() {
    let steps = RefCell::new(Vec::new());
    let take = |pf: &PushFile, there: Current, fault: Option<WriteFault>| {
        let (there, fault) = (RefCell::new(Some(there)), RefCell::new(fault));
        steps.borrow_mut().clear();
        let r = write_pushed_file(
            pf,
            9,
            |_| there.borrow_mut().take().unwrap(),
            |p, _, b| {
                steps.borrow_mut().push(format!("keep {p} {}", String::from_utf8_lossy(b)));
                Ok("copy".to_string())
            },
            |p| steps.borrow_mut().push(format!("remove {p}")),
            |w| {
                steps.borrow_mut().push(format!("write {}", w.path));
                fault.borrow_mut().take()
            },
        );
        (r, steps.borrow().clone())
    };
    let old = || Current::Content(b"old".to_vec(), 5);
    let (r, s) = take(&note("a.md", "new", 9, "stale"), old(), None);
    assert_eq!(r.unwrap().conflict_saved_as.as_deref(), Some("copy"));
    assert_eq!(s, vec!["keep a.md old", "remove a.md", "write a.md"]);
    // A write that fails leaves the path empty; the copy stays.
    let (r, s) = take(&note("a.md", "new", 9, "stale"), old(), Some(WriteFault::Note("n".into())));
    assert_eq!(r.unwrap_err(), "写入失败: n");
    assert_eq!(s, vec!["keep a.md old", "remove a.md", "write a.md"]);
    let (_, s) = take(&note("a.md", "new", 1, "stale"), old(), None);
    assert_eq!(s, vec!["keep a.md new"]);
    // What is pushed already lies there: both are kept, and nothing is removed.
    let (_, s) = take(&note("a.md", "old", 5, "stale"), old(), None);
    assert_eq!(s, vec!["keep a.md old", "write a.md"]);
    let (_, s) = take(&note("a.md", "new", 9, &content_hash(b"old")), old(), None);
    assert_eq!(s, vec!["write a.md"]);
}

#[test]
fn arbitrate_mtime_directions_and_tie() {
    const T_MS: i64 = 1_700_000_000_000;
    let current = |c: &str| Current::Content(c.as_bytes().to_vec(), T_MS);
    let judge = |content: &str, mtime: i64, base: &str, cur: &Current| {
        let pf = note("p.md", content, mtime, base);
        arbitrate_existing(&pf, &content.as_bytes().to_vec(), cur).unwrap()
    };
    assert_eq!(judge("newer", T_MS + 1_000, "stale-base", &current("cur")), Verdict::IncomingWins);
    assert_eq!(judge("older", T_MS - 1_000, "stale-base", &current("cur2")), Verdict::IncomingLoses);
    let wins = content_hash(b"cur4") > content_hash(b"cur3");
    let tie = judge("cur4", T_MS, "stale-base", &current("cur3"));
    assert_eq!(tie == Verdict::IncomingWins, wins);
    assert_eq!(judge("same", T_MS + 9999, &content_hash(b"same"), &current("same")), Verdict::Clean);
    assert_eq!(judge("fresh", T_MS + 1, "stale-base", &Current::Nothing), Verdict::Clean);
}

#[test]
fn pulls_serve_only_what_the_manifest_lists() {
    let meta = FileMeta { path: "a.md".into(), kind: "note".into(), hash: content_hash(b"abc"), mtime_ms: 7, size: 3 };
    let paths = vec!["a.md".to_string(), "b.md".to_string(), "../a.md".to_string()];
    let r = pull_blocking(&vec![meta.clone()], "/v", &paths, |abs| {
        assert_eq!(abs, "/v/a.md");
        Ok(b"abc".to_vec())
    });
    assert_eq!(r.files.len(), 1);
    assert_eq!(r.files[0].content_base64, b64_encode(b"abc"));
    assert_eq!((r.files[0].hash.as_str(), r.files[0].mtime_ms), (content_hash(b"abc").as_str(), 7));
    assert_eq!(r.missing.len(), 2);
    let r = pull_blocking(&vec![meta], "/v", &vec!["a.md".to_string()], |_| Err("坏".to_string()));
    assert!(r.files.is_empty());
    assert_eq!(r.missing[0].0, "a.md");
}

#[test]
fn service_names_lose_their_escapes() {
    assert_eq!(service_instance_name("a\\.b."), "a.b");
    assert_eq!(service_instance_name("REDMI K90"), "REDMI K90");
    assert_eq!(service_instance_name("a\\b"), "a\\b");
    assert_eq!(service_instance_name("设备名._lanmark._tcp.local."), "设备名");
    assert_eq!(service_instance_name("REDMI\\.K90._lanmark._tcp.local."), "REDMI.K90");
}

#[test]
fn a_server_takes_the_first_free_port() {
    let tried = RefCell::new(Vec::new());
    let free = bind_listener(|p| {
        tried.borrow_mut().push(p);
        if p < 4183 {
            Err(BindFault::InUse)
        } else {
            Ok("listener")
        }
    });
    assert_eq!(free, Ok((4183, "listener")));
    assert_eq!(*tried.borrow(), vec![4180, 4181, 4182, 4183]);

    let barred = bind_listener(|p| -> Result<(), BindFault> {
        if p == 4180 {
            Err(BindFault::InUse)
        } else {
            Err(BindFault::Other("denied".into()))
        }
    });
    assert_eq!(barred.unwrap_err(), "denied");

    let count = RefCell::new(0);
    let full = bind_listener(|_| -> Result<(), BindFault> {
        *count.borrow_mut() += 1;
        Err(BindFault::InUse)
    });
    assert_eq!(full.unwrap_err(), "4180..4240 全部被占");
    assert_eq!(*count.borrow(), 60);
}

#[test]
fn an_accepted_push_gives_the_hash_of_its_path() {
    let s = Server { files: RefCell::new(BTreeMap::new()) };
    for (content, at) in [("一", 100), ("二", 50), ("三", 100), ("四", 300)] {
        let l = s.push(&note("n.md", content, at, "stale")).unwrap();
        assert_eq!(l.server_hash, content_hash(s.text("n.md").as_bytes()), "{content}");
    }
    assert_eq!(s.files.borrow().get("n.md").unwrap().1, 300);
}

#[test]
fn what_a_server_shows() {
    let cfg = SyncConfig::fresh("12345678".into());
    assert_eq!(cfg.device_name, "Lanmark 手机");
    let i = pairing_info(Some(4180), &cfg, 0);
    assert!(i.running);
    assert_eq!((i.port, i.last_round_at), (Some(4180), None));
    assert_eq!(pairing_info(None, &cfg, 5).last_round_at, Some(5));
    assert_eq!(sync_config_path("/v"), "/v/.lanmark/sync.json");
    let names = vec!["a-冲突0101-0000.png".to_string(), "b.png".to_string()];
    assert_eq!(conflict_count(2, &names), 3);
    let entry = |kind: EntryKind| Entry { name: "x".into(), kind, len: 1, children: Vec::new() };
    let assets = vec![entry(EntryKind::File), entry(EntryKind::Symlink), entry(EntryKind::Dir), entry(EntryKind::File)];
    assert_eq!(light_stats(Some("手机"), Some(4), Some(&assets)), ("手机".to_string(), 4, 2));
    assert_eq!(light_stats(Some("手机"), None, None), ("手机".to_string(), 0, 0));
    assert_eq!(light_stats(None, Some(4), Some(&assets)), (String::new(), 0, 0));
    let a = push_result("p", Err("e".into()));
    assert_eq!((a.ok, a.error.as_deref()), (false, Some("e")));
}
