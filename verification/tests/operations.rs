//! The operations behind the commands.
use std::cell::RefCell;

use lanmark::commands::{
    asset_save_op, check_mode, entry_delete_op, entry_move_op, favorites_list_op, note_create_op, note_read_op,
    note_write_op, open_vault, pick_and_set_op, place_asset, recents_list_op, search_op, vault_ensure_dir,
    vault_open_path_op, vault_set_path, vault_set_sync_auto, vault_status,
};
use lanmark::db::{favorite_toggle, rename_paths, SearchHit};
use lanmark::fs_ops::{
    content_hash, create_folder, create_note, move_entry, rename_entry, CleanName, Nearest, Node, PathFacts,
};
use lanmark::strmap::StrMap;
use lanmark::sync::{b64_encode, Tombstone};
use lanmark::vault::AppConfig;

const VAULT: &str = "/v";

fn facts() -> PathFacts {
    PathFacts { nearest: Nearest::Canonical(VAULT.to_string()), canon_vault: VAULT.to_string(), is_dir: true }
}

fn stone(path: &str) -> Tombstone {
    Tombstone { path: path.into(), hash: "h".into(), mtime_ms: 1, deleted_at: 1 }
}

fn paths(list: &[Tombstone]) -> Vec<String> {
    list.iter().map(|t| t.path.clone()).collect()
}

fn clean(name: &str) -> CleanName {
    CleanName { raw: name.to_string(), with_ext: name.to_string(), plain: name.to_string() }
}

/// Rows of notes, searched the way the database does it.
fn find(rows: &[(String, String, String)], query: &str) -> Vec<SearchHit> {
    search_op(query, |pattern, limit| {
        assert_eq!(limit, 50);
        let q = pattern[1..pattern.len() - 1].to_string();
        Ok(rows.iter().filter(|r| r.1.contains(&q) || r.2.contains(&q)).cloned().collect())
    })
    .unwrap()
}

#[test]
fn a_moved_folder_is_gone_here_and_back_there() {
    let files = vec![("a/x.md".to_string(), Some(b"x".to_vec())), ("a/y.md".to_string(), None)];
    let start = || vec![stone("b/a/x.md"), stone("z.md")];
    let to = |list: &mut Vec<Tombstone>, rel: &str, dir: &str, done: Result<Vec<String>, String>| {
        let done = RefCell::new(Some(done));
        entry_move_op(list, &files, VAULT, rel, dir, &facts(), &facts(), 7, |_| false, |new, gone| {
            assert_eq!(new, "b/a");
            assert_eq!(paths(gone), vec!["b/a/x.md", "z.md", "a/x.md"]);
            done.borrow_mut().take().unwrap()
        })
    };
    let mut list = start();
    assert_eq!(to(&mut list, "a", "b", Ok(vec!["b/a/x.md".to_string()])).unwrap(), "b/a");
    assert_eq!(paths(&list), vec!["z.md", "a/x.md"]);
    assert_eq!((list[1].hash.as_str(), list[1].deleted_at), (content_hash(b"x").as_str(), 7));
    // Where the disk fails, the files stay recorded as gone.
    let mut list = start();
    assert_eq!(to(&mut list, "a", "b", Err("满".to_string())).unwrap_err(), "满");
    assert_eq!(paths(&list), vec!["b/a/x.md", "z.md", "a/x.md"]);
    // Nothing is recorded where nothing moves.
    for (rel, dir) in [("b/a", "b"), ("a", "a/c"), ("./.", "b"), ("../a", "b")] {
        let mut list = start();
        let r = entry_move_op(&mut list, &files, VAULT, rel, dir, &facts(), &facts(), 7, |_| false, |_, _| panic!("moved"));
        assert_eq!(r.is_ok(), rel == "b/a");
        assert_eq!(paths(&list), vec!["b/a/x.md", "z.md"]);
    }
}

#[test]
fn acceptance_flow_folder_note_image_search_rename_delete() {
    let folder = create_folder(VAULT, "", "工作", &facts(), |_| false).unwrap();
    assert_eq!(folder.path, "工作");
    let note = create_note(VAULT, "工作", "会议-纪要.md", &facts(), |_| false).unwrap();
    assert_eq!(note.path, "工作/会议-纪要.md");
    let (asset, bytes) = asset_save_op(&mut Vec::new(), VAULT, &b64_encode(b"fake-png-bytes"), "png", &facts()).unwrap();
    assert!(asset.starts_with("assets/"));
    assert!(asset.ends_with(".png"));
    assert_eq!(bytes, b"fake-png-bytes");
    let content = format!("# 会议纪要\n\n讨论内容 很重要\n\n![]({})\n", asset);
    let (row, told) = note_write_op(&mut Vec::new(), &note.path, &content, 7);
    assert!(!told.hash.is_empty());
    assert_eq!(told.hash, content_hash(content.as_bytes()));
    assert_eq!(told.mtime_ms, 7);
    let mut rows = vec![(row.path, row.title, row.body)];

    let hits = find(&rows, "很重要");
    assert_eq!(hits.len(), 1);
    assert_eq!(hits[0].path, note.path);
    assert!(hits[0].snippet.contains("很重要"));

    let new_folder = rename_entry(VAULT, "工作", &clean("研发"), &facts(), |_| false).unwrap();
    assert_eq!(new_folder, "研发");
    rows[0].0 = rename_paths(&vec![rows[0].0.clone()], "工作", &new_folder).remove(0);
    let hits2 = find(&rows, "很重要");
    assert_eq!(hits2.len(), 1);
    assert_eq!(hits2[0].path, "研发/会议-纪要.md");

    let none: StrMap<String> = StrMap::new();
    let mut recents: Vec<(String, i64)> = Vec::new();
    let mut favorites: Vec<(String, i64)> = Vec::new();
    let read = note_read_op(&mut recents, "研发/会议-纪要.md", content, 8);
    assert!(read.content.contains("很重要"));
    assert_eq!(read.title, "会议-纪要");
    let shown = recents_list_op(&recents, &none);
    assert_eq!(shown.len(), 1);
    assert_eq!(shown[0].0, "研发/会议-纪要.md");
    assert!(favorite_toggle(&mut favorites, "研发/会议-纪要.md", 9));
    assert_eq!(favorites_list_op(&favorites, &none).len(), 1);

    let mut tombstones: Vec<Tombstone> = Vec::new();
    let files = vec![("研发/会议-纪要.md".to_string(), Some(b"x".to_vec()))];
    let trash =
        entry_delete_op(&mut tombstones, &files, VAULT, "研发/会议-纪要.md", &facts(), &Vec::new(), 10).unwrap();
    assert!(trash.starts_with(".lanmark/trash/"));
    assert_eq!(tombstones.len(), 1);
}

#[test]
fn create_note_sanitizes_and_uniquifies() {
    let taken = RefCell::new(Vec::<String>::new());
    let make = |name: &str| {
        let n = create_note(VAULT, "", name, &facts(), |f| taken.borrow().contains(f)).unwrap();
        taken.borrow_mut().push(n.name.clone());
        n.path
    };
    // The names come without the characters that a file name cannot have.
    assert_eq!(make("a-b"), "a-b.md");
    assert_eq!(make("a-b"), "a-b-2.md");
    assert_eq!(make("CON"), "n-CON.md");
}

#[test]
fn rename_note_preserves_extension_and_updates_index() {
    let note = create_note(VAULT, "", "旧名字", &facts(), |_| false).unwrap();
    let (row, _) = note_write_op(&mut Vec::new(), &note.path, "正文 内容", 1);
    assert_eq!(row.title, "旧名字");
    let new_path = rename_entry(VAULT, &note.path, &clean("新名字"), &facts(), |_| false).unwrap();
    assert_eq!(new_path, "新名字.md");
    let (row, _) = note_write_op(&mut Vec::new(), &new_path, &row.body, 2);
    let hits = find(&[(row.path, row.title, row.body)], "正文");
    assert_eq!(hits.len(), 1);
    assert_eq!(hits[0].path, new_path);
    assert_eq!(hits[0].title, "新名字");
}

#[test]
fn folder_move_updates_children_and_trash() {
    let f1 = create_folder(VAULT, "", "a", &facts(), |_| false).unwrap();
    let f2 = create_folder(VAULT, "", "b", &facts(), |_| false).unwrap();
    let note = create_note(VAULT, &f1.path, "n.md", &facts(), |_| false).unwrap();
    let moved = move_entry(VAULT, &f1.path, &f2.path, &facts(), &facts(), |_| false).unwrap();
    assert_eq!(moved, "b/a");
    let path = rename_paths(&vec![note.path], &f1.path, &moved).remove(0);
    let hits = find(&[(path, "n".to_string(), "移动测试".to_string())], "移动测试");
    assert_eq!(hits[0].path, "b/a/n.md");
}

#[test]
fn commands_fail_gracefully_without_vault() {
    assert_eq!(open_vault(None).unwrap_err(), "尚未打开 vault");
    assert_eq!(open_vault(Some("/v")).unwrap(), "/v");
}

#[test]
fn create_mode_rejects_dir_with_notes() {
    let names = Some(vec!["existing.md".to_string()]);
    let err = pick_and_set_op("create", &names, || panic!("opened")).unwrap_err();
    assert!(err.contains("已包含"));
    assert!(pick_and_set_op("open", &names, || Ok(())).is_ok());
    assert!(pick_and_set_op("create", &Some(vec!["x.txt".to_string()]), || Ok(())).is_ok());
    assert!(pick_and_set_op("create", &None, || Ok(())).is_ok());
    assert_eq!(pick_and_set_op("weg", &names, || Ok(())).unwrap_err(), "未知模式: weg");
    assert_eq!(pick_and_set_op("open", &names, || Err("坏".to_string())).unwrap_err(), "坏");
    assert_eq!(check_mode("open", &names), None);
}

#[test]
fn vault_paths_are_checked() {
    assert_eq!(vault_open_path_op("/x", false, || panic!("opened")).unwrap_err(), "目录不存在: /x");
    assert_eq!(vault_open_path_op("/x", true, || Ok(())).unwrap(), "/x");
    assert_eq!(vault_open_path_op("/x", true, || Err("e".to_string())).unwrap_err(), "e");
    assert_eq!(vault_ensure_dir("/a/b", |_| Ok(())).unwrap(), "/a/b");
    assert_eq!(vault_ensure_dir("/a/../b", |_| panic!("made")).unwrap_err(), "非法路径: /a/../b");
    assert_eq!(vault_ensure_dir("a", |_| panic!("made")).unwrap_err(), "非法路径: a");
    assert_eq!(vault_ensure_dir("/a..b", |_| Err("满".to_string())).unwrap_err(), "创建目录失败: 满");
}

#[test]
fn opening_a_vault_keeps_the_rest_of_the_configuration() {
    let mut cfg = AppConfig::default();
    assert!(!vault_set_sync_auto(&mut cfg, false));
    cfg.editor.autosave_ms = 3000;
    vault_set_path(&mut cfg, "/notes");
    assert_eq!(cfg.vault_path.as_deref(), Some("/notes"));
    assert!(!cfg.sync_auto);
    assert_eq!(cfg.editor.autosave_ms, 3000);
    let s = vault_status(&cfg, true);
    assert!(s.configured && s.open && !s.sync_auto);
    assert_eq!(s.path.as_deref(), Some("/notes"));
    assert!(!vault_status(&AppConfig::default(), false).configured);
}

#[test]
fn attachments_come_as_base64() {
    let mut list = vec![stone("assets/ba7816bf8f01cfea.png"), stone("z.md")];
    assert!(asset_save_op(&mut list, VAULT, "???", "png", &facts()).unwrap_err().starts_with("base64 解码失败: "));
    assert!(asset_save_op(&mut list, VAULT, "YWJj", "a/b", &facts()).unwrap_err().starts_with("非法附件扩展名: "));
    assert_eq!(place_asset(&mut list, VAULT, Err("坏".to_string()), "png", &facts()).unwrap_err(), "坏");
    assert_eq!(list.len(), 2);
    assert_eq!(asset_save_op(&mut list, VAULT, "YWJj", "PNG", &facts()).unwrap().0, "assets/ba7816bf8f01cfea.png");
    assert_eq!(paths(&list), vec!["z.md"]);
}

#[test]
fn new_notes_have_an_empty_row() {
    let node = Node { path: "a.md".into(), kind: "note".into(), name: "a.md".into(), title: Some("a".into()) };
    let mut list = vec![stone("a.md"), stone("z.md")];
    let row = note_create_op(&mut list, &node, 5);
    assert_eq!((row.path.as_str(), row.title.as_str(), row.body.as_str()), ("a.md", "a", ""));
    assert_eq!((row.mtime_ms, row.hash.as_str()), (5, ""));
    assert_eq!(paths(&list), vec!["z.md"]);
    note_write_op(&mut list, "z.md", "x", 1);
    assert!(list.is_empty());
}
