//! Paths, names, trees and trash of a vault.
use std::collections::BTreeSet;

use lanmark::colors::{is_valid_color_token, migrate_folder_colors, prune_folder_colors, set_folder_color, ColorFile};
use lanmark::db::{favorite_toggle, list_favorites, list_recents, record_recent, rename_paths, search};
use lanmark::fs_ops::{
    content_hash, create_folder, create_note, extract_frontmatter_title, mtime_to_set, move_entry, now_ms, note_title,
    rename_entry, resolve_in_vault, safe_join, save_asset, tmp_path_for, unique_target_with_cap, write_note, CleanName,
    FsErrorKind, Nearest, PathFacts, TRASH_DIR,
};
use lanmark::strmap::StrMap;
use lanmark::tree::{
    collect_notes, delete_entry, entry_file_list, list_tree, reindex, trash_entry_ms, trash_prune, trash_unique_name,
    trash_usage, vault_stats, DiskNote, Entry, EntryKind,
};

const VAULT: &str = "/v";

fn facts() -> PathFacts {
    PathFacts { nearest: Nearest::Canonical(VAULT.to_string()), canon_vault: VAULT.to_string(), is_dir: true }
}

fn outside() -> PathFacts {
    PathFacts { nearest: Nearest::Canonical("/elsewhere".to_string()), canon_vault: VAULT.to_string(), is_dir: true }
}

/// A name without characters that a file name cannot have.
fn clean(name: &str) -> CleanName {
    let plain = name.strip_suffix(".md").unwrap_or(name).to_string();
    CleanName { raw: name.to_string(), with_ext: format!("{plain}.md"), plain }
}

fn dir(name: &str, children: Vec<Entry>) -> Entry {
    Entry { name: name.to_string(), kind: EntryKind::Dir, len: 0, children }
}

fn file(name: &str, len: u64) -> Entry {
    Entry { name: name.to_string(), kind: EntryKind::File, len, children: Vec::new() }
}

fn link(name: &str) -> Entry {
    Entry { name: name.to_string(), kind: EntryKind::Symlink, len: 3, children: Vec::new() }
}

#[test]
fn create_rename_search_flow() {
    let mut disk: BTreeSet<String> = BTreeSet::new();
    let folder = create_folder(VAULT, "", "工作-笔记", &facts(), |n| disk.contains(n)).unwrap();
    assert_eq!(folder.name, "工作-笔记");
    let note = create_note(VAULT, &folder.path, "读书-笔记.md", &facts(), |n| disk.contains(n)).unwrap();
    assert_eq!(note.name, "读书-笔记.md");
    assert_eq!(note.path, "工作-笔记/读书-笔记.md");
    disk.insert(note.name.clone());

    let row = write_note(&note.path, "# 读书笔记\n\n关于 Rust 异步 的思考", 1);
    let hits = search("异步", 10, |_, _| Ok(vec![(row.path.clone(), row.title.clone(), row.body.clone())])).unwrap();
    assert_eq!(hits.len(), 1);
    assert_eq!(hits[0].path, note.path);

    let new_path = rename_entry(VAULT, &note.path, &clean("新-名字"), &facts(), |n| disk.contains(n)).unwrap();
    assert_eq!(new_path, "工作-笔记/新-名字.md");
    assert_eq!(rename_paths(&vec![note.path.clone()], &note.path, &new_path), vec![new_path.clone()]);

    let row = write_note(&new_path, "---\ntitle: 真标题\n---\n内容", 2);
    assert_eq!(row.title, "真标题");
}

#[test]
fn delete_goes_to_trash_and_purges_index() {
    let note = create_note(VAULT, "", "待删.md", &facts(), |_| false).unwrap();
    let mut recents: Vec<(String, i64)> = Vec::new();
    record_recent(&mut recents, &note.path, 1, 50);
    let trash_rel = delete_entry(VAULT, &note.path, &facts(), &Vec::new(), 123).unwrap();
    assert!(trash_rel.starts_with(TRASH_DIR));
    assert_eq!(trash_rel, ".lanmark/trash/123-待删.md");
    let left = lanmark::db::remove_prefix(&vec![note.path.clone()], &note.path);
    assert!(left.is_empty());
}

#[test]
fn move_folder_updates_children() {
    let f1 = create_folder(VAULT, "", "a", &facts(), |_| false).unwrap();
    let f2 = create_folder(VAULT, "", "b", &facts(), |_| false).unwrap();
    let note = create_note(VAULT, &f1.path, "n.md", &facts(), |_| false).unwrap();
    let moved = move_entry(VAULT, &f1.path, &f2.path, &facts(), &facts(), |_| false).unwrap();
    assert_eq!(moved, "b/a");
    assert_eq!(rename_paths(&vec![note.path], &f1.path, &moved), vec!["b/a/n.md"]);
}

#[test]
fn unique_target_exhaustion_returns_err_not_panic() {
    let disk = ["x.md".to_string(), "x-2.md".to_string()];
    let r = unique_target_with_cap("x.md", 2, |n| disk.contains(n));
    assert!(r.is_err());
    assert!(r.as_ref().unwrap_err().kind == FsErrorKind::AlreadyExists);
    let t = unique_target_with_cap("x.md", 100, |n| disk.contains(n)).unwrap();
    assert!(t.ends_with("x-3.md"));
}

#[test]
fn move_to_current_dir_is_noop() {
    let f = create_folder(VAULT, "", "工作", &facts(), |_| false).unwrap();
    let note = create_note(VAULT, &f.path, "n.md", &facts(), |_| false).unwrap();
    assert_eq!(move_entry(VAULT, &note.path, "工作", &facts(), &facts(), |_| true).unwrap(), note.path);
    let root_note = create_note(VAULT, "", "r.md", &facts(), |_| false).unwrap();
    assert_eq!(move_entry(VAULT, &root_note.path, "", &facts(), &facts(), |_| true).unwrap(), root_note.path);
}

#[test]
fn moves_that_cannot_be() {
    let mut nowhere = facts();
    nowhere.is_dir = false;
    let e = move_entry(VAULT, "a/n.md", "b", &facts(), &nowhere, |_| false).unwrap_err();
    assert_eq!(e.message, "目标目录不存在");
    assert!(e.kind == FsErrorKind::NotFound);
    let e = move_entry(VAULT, "a", "a/b", &facts(), &facts(), |_| false).unwrap_err();
    assert_eq!(e.message, "不能移动到自身内部");
    let e = move_entry(VAULT, "a", "b", &facts(), &outside(), |_| false).unwrap_err();
    assert!(e.kind == FsErrorKind::PermissionDenied);
    assert!(move_entry(VAULT, "../a", "b", &facts(), &facts(), |_| false).is_err());
    assert_eq!(move_entry(VAULT, "a/n.md", "b", &facts(), &facts(), |n| n == "n.md").unwrap(), "b/n-2.md");
}

#[test]
fn the_vault_itself_stays_where_it_is() {
    let named = |name: &str, rel: &str| rename_entry("/home/v/", rel, &clean(name), &facts(), |_| panic!("asked"));
    let e = named("w", "./.").unwrap_err();
    assert!(e.kind == FsErrorKind::InvalidInput);
    assert_eq!(named("v", "./.").unwrap(), "./.");
    assert!(named("v", ".").is_err());
    let e = move_entry(VAULT, "./.", "b", &facts(), &facts(), |_| panic!("asked")).unwrap_err();
    assert_eq!(e.message, "不能移动到自身内部");
    assert!(e.kind == FsErrorKind::InvalidInput);
    assert_eq!(move_entry(VAULT, "././.", "./.", &facts(), &facts(), |_| panic!("asked")).unwrap(), "././.");
    let e = delete_entry(VAULT, " ./. ", &facts(), &Vec::new(), 1).unwrap_err();
    assert!(e.kind == FsErrorKind::InvalidInput);
}

#[test]
fn atomic_write_tmp_unique_and_concurrent_safe() {
    let a = tmp_path_for("/tmp/x.md", 7, 1);
    let b = tmp_path_for("/tmp/x.md", 7, 2);
    assert_ne!(a, b, "两次调用必须得到不同 tmp 名");
    assert!(a.contains(".lanmark-tmp"));
    assert_eq!(a, "/tmp/x.md.7.1.lanmark-tmp");
}

#[test]
fn rename_updates_recent_paths() {
    let note = create_note(VAULT, "", "旧名.md", &facts(), |_| false).unwrap();
    let mut recents: Vec<(String, i64)> = Vec::new();
    let mut favs: Vec<(String, i64)> = Vec::new();
    record_recent(&mut recents, &note.path, 1, 50);
    favorite_toggle(&mut favs, &note.path, 1);
    let new_path = rename_entry(VAULT, &note.path, &clean("新名.md"), &facts(), |_| false).unwrap();
    for list in [&mut recents, &mut favs] {
        for row in list.iter_mut() {
            row.0 = lanmark::db::rename_path(&row.0, &note.path, &new_path);
        }
    }
    let none: StrMap<String> = StrMap::new();
    assert_eq!(list_recents(&recents, &none, 10)[0].0, new_path);
    assert_eq!(list_favorites(&favs, &none)[0].0, new_path);
}

#[test]
fn path_escape_blocked() {
    assert!(safe_join(VAULT, "../逃逸").is_err());
    assert!(safe_join(VAULT, "/绝对").is_err());
    assert!(safe_join(VAULT, "a\\b").is_err());
    assert!(safe_join(VAULT, "正常/子目录").is_ok());
    assert_eq!(safe_join(VAULT, " a/b ").unwrap(), "/v/a/b");
    let e = safe_join(VAULT, "a//b").unwrap_err();
    assert_eq!(e.message, "非法路径: a//b");
    assert!(e.kind == FsErrorKind::InvalidInput);
}

#[test]
fn symlinks_skipped_in_walk_reindex_and_guarded_on_ops() {
    let root = vec![link("外部链接"), link("秘密.md"), dir("循环", vec![link("loop")]), file("真.md", 1)];
    let tree = list_tree(&root);
    assert!(tree.iter().all(|n| n.name != "外部链接" && n.name != "秘密.md"));
    assert!(tree.iter().all(|n| !n.path.contains("loop")));
    assert_eq!(collect_notes(&root), vec!["真.md"]);

    let e = resolve_in_vault(VAULT, "秘密.md", &Nearest::Canonical("/outside/secret.md".into()), VAULT).unwrap_err();
    assert!(e.kind == FsErrorKind::PermissionDenied);
    assert!(delete_entry(VAULT, "秘密.md", &outside(), &Vec::new(), 1).is_err());
    assert!(save_asset(VAULT, b"x", "png", &facts()).is_ok());
    assert!(resolve_in_vault(VAULT, "新笔记.md", &Nearest::Canonical("/v".into()), VAULT).is_ok());
    assert!(resolve_in_vault(VAULT, "循环/ok.md", &Nearest::Canonical("/v/循环".into()), VAULT).is_ok());
    assert!(resolve_in_vault(VAULT, "../x", &Nearest::Canonical("/v".into()), VAULT).is_err());
    assert!(resolve_in_vault(VAULT, "x", &Nearest::Canonical("/vault2".into()), VAULT).is_err());
    let e = resolve_in_vault(VAULT, "x", &Nearest::Missing, VAULT).unwrap_err();
    assert!(e.kind == FsErrorKind::NotFound);
    let e = resolve_in_vault(VAULT, "x", &Nearest::Failed("坏".into()), VAULT).unwrap_err();
    assert_eq!(e.message, "坏");
}

#[test]
fn reindex_rebuilds_from_disk() {
    let disk = vec![DiskNote { path: "n.md".into(), bytes: "# 外部改动".as_bytes().to_vec(), mtime_ms: 5 }];
    let r = reindex(&disk, &vec!["n.md".to_string()]);
    assert_eq!(r.rows.len(), 1);
    assert_eq!(r.rows[0].title, "n");
    assert_eq!(r.rows[0].body, "# 外部改动");
    assert!(r.stale.is_empty());
    let r = reindex(&Vec::new(), &vec!["n.md".to_string()]);
    assert!(r.rows.is_empty());
    assert_eq!(r.stale, vec!["n.md"]);
}

#[test]
fn asset_dedup_by_hash() {
    let p1 = save_asset(VAULT, b"pngbytes", "png", &facts()).unwrap();
    let p2 = save_asset(VAULT, b"pngbytes", "png", &facts()).unwrap();
    assert_eq!(p1, p2);
    assert!(p1.starts_with("assets/"));
    assert!(p1.ends_with(".png"));
    assert_eq!(save_asset(VAULT, b"abc", "png", &facts()).unwrap(), "assets/ba7816bf8f01cfea.png");
}

#[test]
fn save_asset_rejects_hostile_ext() {
    assert!(save_asset(VAULT, b"x", "../evil", &facts()).is_err());
    assert!(save_asset(VAULT, b"x", "a/b", &facts()).is_err());
    assert!(save_asset(VAULT, b"x", "png/../evil", &facts()).is_err());
    let p = save_asset(VAULT, b"x", "..", &facts()).unwrap();
    assert!(p.ends_with(".bin"));
    assert!(save_asset(VAULT, b"x", ".PNG", &facts()).is_ok());
    assert!(save_asset(VAULT, b"x", "tar.gz", &facts()).is_ok());
    assert!(save_asset(VAULT, b"x", "png", &outside()).is_err());
}

#[test]
fn trash_name_collision_suffixed() {
    assert_eq!(trash_unique_name(&Vec::new(), "123-x.md"), "123-x.md");
    assert_eq!(trash_unique_name(&vec!["123-x.md".to_string()], "123-x.md"), "123-x.md-2");
    let both = vec!["123-x.md".to_string(), "123-x.md-2".to_string()];
    assert_eq!(trash_unique_name(&both, "123-x.md"), "123-x.md-3");
}

#[test]
fn reindex_hashes_raw_bytes_for_non_utf8() {
    let gbk: &[u8] = b"\xd6\xd0\xce\xc4";
    let disk = vec![DiskNote { path: "gbk.md".into(), bytes: gbk.to_vec(), mtime_ms: 1 }];
    let r = reindex(&disk, &Vec::new());
    assert_eq!(r.rows[0].hash, content_hash(gbk));
}

#[test]
fn rename_preserves_frontmatter_title() {
    let body = "---\ntitle: 真标题\n---\n内容";
    let new_path = rename_entry(VAULT, "旧名.md", &clean("新名"), &facts(), |_| false).unwrap();
    assert_eq!(new_path, "新名.md");
    assert_eq!(note_title(body, &new_path), "真标题");
    let p2 = rename_entry(VAULT, "b.md", &clean("c"), &facts(), |_| false).unwrap();
    assert_eq!(note_title("纯正文", &p2), "c");
}

#[test]
fn rename_of_a_note_that_is_missing_is_refused() {
    assert!(rename_entry(VAULT, "../x.md", &clean("y"), &facts(), |_| false).is_err());
    assert!(rename_entry(VAULT, "x.md", &clean("y"), &outside(), |_| false).is_err());
    assert_eq!(rename_entry(VAULT, "d/x.md", &clean("y"), &facts(), |n| n == "y.md").unwrap(), "d/y-2.md");
}

#[test]
fn list_tree_keeps_hierarchical_dfs_order() {
    let root = vec![
        dir("备忘", vec![file("密码簿.md", 1), file("租房.md", 1)]),
        file("README.md", 1),
        dir(
            "技术",
            vec![
                dir("编程语言", vec![file("SQL必知必会.md", 1), file("Git版本管理.md", 1)]),
                dir("人工智能", vec![file("CUDA C 权威编程指南.md", 1)]),
                dir("系统与网络", vec![file("Arch Linux使用笔记.md", 1)]),
            ],
        ),
        dir("assets", vec![file("p.png", 1)]),
        dir(".lanmark", vec![file("x.md", 1)]),
    ];
    let tree = list_tree(&root);
    let paths: Vec<&str> = tree.iter().map(|n| n.path.as_str()).collect();
    let idx = |p: &str| paths.iter().position(|&x| x == p).unwrap();
    assert!(idx("技术") < idx("技术/人工智能"));
    assert!(idx("技术/人工智能") < idx("技术/人工智能/CUDA C 权威编程指南.md"));
    assert!(idx("技术/人工智能/CUDA C 权威编程指南.md") < idx("技术/编程语言"));
    assert!(idx("技术/编程语言/Git版本管理.md") < idx("技术/编程语言/SQL必知必会.md"));
    assert!(idx("备忘") < idx("技术"));
    assert!(idx("技术/系统与网络/Arch Linux使用笔记.md") < idx("README.md"));
    assert!(!paths.contains(&"assets"));
    assert_eq!(idx("备忘/密码簿.md") + 1, idx("备忘/租房.md"));
    assert!(paths.iter().all(|p| !p.starts_with('.')));
    assert_eq!(tree.last().unwrap().title.as_deref(), Some("README"));
}

#[test]
fn folders_expand_to_their_notes_and_attachments() {
    let notes = vec!["d/b.md".to_string(), "d/a.md".to_string()];
    let one = entry_file_list(VAULT, "d/a.md", &facts(), true, &notes, &Vec::new()).unwrap();
    assert_eq!(one, vec!["d/a.md"]);
    let all = entry_file_list(VAULT, "d", &facts(), false, &notes, &Vec::new()).unwrap();
    assert_eq!(all, vec!["d/a.md", "d/b.md"]);
    assert!(entry_file_list(VAULT, "../d", &facts(), false, &notes, &Vec::new()).is_err());
}

#[test]
fn only_the_attachment_folder_lists_its_files() {
    let file = || vec![Entry { name: "x.txt".into(), kind: EntryKind::File, len: 1, children: Vec::new() }];
    let list = |rel: &str| entry_file_list(VAULT, rel, &facts(), false, &Vec::new(), &file()).unwrap();
    assert_eq!(list("assets-old"), Vec::<String>::new());
    assert_eq!(list("assets"), vec!["assets/x.txt"]);
    assert_eq!(list("assets/deep"), vec!["assets/deep/x.txt"]);
}

#[test]
fn colors_come_back_with_their_folder() {
    let mut colors: StrMap<String> = StrMap::new();
    for (k, v) in [("a", "fd1"), ("a/b", "fd2"), ("ab", "fd3")] {
        colors.insert(k.to_string(), v.to_string());
    }
    let color = |c: &StrMap<String>, k: &str| c.get(k).cloned();
    assert!(migrate_folder_colors(&mut colors, "a", "c/d"));
    assert_eq!(colors.len(), 3);
    assert_eq!(color(&colors, "a"), None);
    assert_eq!(color(&colors, "ab").as_deref(), Some("fd3"));
    assert!(migrate_folder_colors(&mut colors, "c/d", "a"));
    assert_eq!(colors.len(), 3);
    assert_eq!(color(&colors, "a").as_deref(), Some("fd1"));
    assert_eq!(color(&colors, "a/b").as_deref(), Some("fd2"));
    assert_eq!(color(&colors, "ab").as_deref(), Some("fd3"));
}

#[test]
fn vault_stats_count_each_byte_once() {
    let root = vec![
        file("a.md", 10),
        dir("d", vec![dir("e", vec![file("b.md", 20)])]),
        dir("assets", vec![file("p.png", 5)]),
        dir(".lanmark", vec![file("lanmark.db", 100), dir("trash", vec![file("1-x.md", 7)])]),
    ];
    let s = vault_stats(&root);
    assert_eq!(s.notes, 2);
    assert_eq!(s.folders, 2);
    assert_eq!(s.assets, 1);
    assert_eq!(s.bytes, 10 + 20 + 5 + 100 + 7);
    assert_eq!((s.trash_entries, s.trash_bytes), (1, 7));
    assert_eq!(trash_usage(&root), (1, 7));
}

#[test]
fn trash_is_pruned_by_the_time_in_its_names() {
    assert_eq!(trash_entry_ms("123-x.md"), Some(123));
    assert_eq!(trash_entry_ms("x.md"), None);
    assert_eq!(trash_entry_ms("0-x.md"), None);
    assert_eq!(trash_entry_ms("+5-x.md"), None);
    let day = 86_400_000i64;
    let names = vec!["1-alt.md".to_string(), format!("{}-neu.md", 9 * day), "ohne.md".to_string()];
    assert_eq!(trash_prune(&names, 7, 10 * day), vec!["1-alt.md"]);
    assert!(trash_prune(&names, 0, 10 * day).is_empty());
}

#[test]
fn front_matter_titles() {
    assert_eq!(extract_frontmatter_title("---\ntitle: \"引\"\n---\nx"), Some("引".to_string()));
    assert_eq!(extract_frontmatter_title("---\na: b\n---\nx"), None);
    assert_eq!(extract_frontmatter_title("title: x"), None);
    assert_eq!(extract_frontmatter_title("---\ntitle: x"), None);
}

#[test]
fn clocks_before_the_epoch_count_as_zero() {
    assert_eq!(now_ms(None), 0);
    assert_eq!(now_ms(Some(5)), 5);
    assert_eq!(mtime_to_set(0), None);
    assert_eq!(mtime_to_set(-1), None);
    assert_eq!(mtime_to_set(9), Some(9));
}

#[test]
fn colors_follow_their_folders() {
    let mut colors: StrMap<String> = StrMap::new();
    assert!(is_valid_color_token(None) && is_valid_color_token(Some("fd1")) && !is_valid_color_token(Some("red")));
    set_folder_color(&mut colors, VAULT, "a", Some("fd1"), &facts()).unwrap();
    set_folder_color(&mut colors, VAULT, "a/b", Some("fd2"), &facts()).unwrap();
    set_folder_color(&mut colors, VAULT, "ab", Some("fd3"), &facts()).unwrap();
    let e = set_folder_color(&mut colors, VAULT, "a", Some("r\"ed"), &facts()).unwrap_err();
    assert_eq!(e.message, "未知颜色 token: Some(\"r\\\"ed\")");
    let mut f = facts();
    f.is_dir = false;
    let e = set_folder_color(&mut colors, VAULT, "a", Some("fd1"), &f).unwrap_err();
    assert_eq!(e.message, "仅目录可设置颜色");
    assert!(set_folder_color(&mut colors, VAULT, "../a", Some("fd1"), &facts()).is_err());

    assert!(migrate_folder_colors(&mut colors, "a", "c/d"));
    assert_eq!(colors.get("c/d").map(|s| s.as_str()), Some("fd1"));
    assert_eq!(colors.get("c/d/b").map(|s| s.as_str()), Some("fd2"));
    assert_eq!(colors.get("ab").map(|s| s.as_str()), Some("fd3"));
    assert!(!migrate_folder_colors(&mut colors, "x", "y"));

    assert!(prune_folder_colors(&mut colors, "c") == ColorFile::Rewrite);
    assert_eq!(colors.len(), 1);
    assert!(prune_folder_colors(&mut colors, "zzz") == ColorFile::Keep);
    set_folder_color(&mut colors, VAULT, "ab", None, &facts()).unwrap();
    assert_eq!(colors.len(), 0);
}
