//! Versions, conflict names, manifests, hashes and base64.
use std::cell::Cell;
use std::collections::BTreeSet;

use lanmark::fs_ops::{content_hash, write_note, write_note_bytes};
use lanmark::sync::{
    b64_decode, b64_encode, b64_told, clear_tombstones_for_entry, conflict_copy_name, conflict_name, local_manifest,
    month_day, record_tombstones_for_entry, upsert_tombstone, version_gt, write_conflict_copy, AssetOnDisk, NoteOnDisk,
    Tombstone,
};

#[test]
fn version_tuple_ordering() {
    assert!(version_gt((2, 0, "a"), (1, 0, "b")));
    assert!(!version_gt((1, 0, "b"), (2, 0, "a")));
    assert!(version_gt((1, 10, "a"), (1, 5, "b")));
    assert!(!version_gt((1, 5, "b"), (1, 10, "a")));
    assert!(version_gt((1, 5, "cafe"), (1, 5, "beef")));
    assert!(!version_gt((1, 5, "beef"), (1, 5, "cafe")));
    assert!(!version_gt((1, 5, "cafe"), (1, 5, "cafe")));
}

#[test]
fn an_edit_wins_a_tie_with_a_deletion() {
    assert!(version_gt((7, 1, "00"), (7, 0, "ff")));
    assert!(!version_gt((7, 0, "ff"), (7, 1, "00")));
    // An empty file is no larger than a deletion: the hashes decide.
    assert!(!version_gt((7, 0, "00"), (7, 0, "ff")));
}

#[test]
fn conflict_name_format_and_suffix() {
    let ms = 1_789_633_800_000i64;
    let n = conflict_name("工作/读书笔记.md", ms, 0);
    assert_eq!(n, "工作/读书笔记-冲突0917-0830.md");
    let n2 = conflict_name("工作/读书笔记.md", ms, 2);
    assert_eq!(n2, "工作/读书笔记-冲突0917-0830-2.md");
    let n3 = conflict_name("图片", ms, 0);
    assert_eq!(n3, "图片-冲突0917-0830");
    let n4 = conflict_name("README.md", ms, 0);
    assert_eq!(n4, "README-冲突0917-0830.md");
}

#[test]
fn conflict_name_across_eras() {
    assert_eq!(conflict_name("a.md", 0, 0), "a-冲突0101-0000.md");
    let ms = 951_782_400_000i64;
    assert_eq!(conflict_name("b.md", ms, 0), "b-冲突0229-0000.md");
    let ms2 = 4_107_456_000_000i64;
    assert_eq!(conflict_name("c.md", ms2, 0), "c-冲突0228-0000.md");
}

#[test]
fn conflict_names_at_the_turns_of_the_calendar() {
    // The last minute of 1999 and the first of March in a year without leap day.
    assert_eq!(conflict_name("a.md", 946_684_799_000, 0), "a-冲突1231-2359.md");
    assert_eq!(conflict_name("a.md", 4_107_542_400_000, 0), "a-冲突0301-0000.md");
    assert_eq!(conflict_name("a.md", 1_709_164_800_000, 0), "a-冲突0229-0000.md");
    assert_eq!(conflict_name(".md", 0, 0), ".md-冲突0101-0000");
}

#[test]
fn days_follow_each_other_and_the_calendar_repeats() {
    const DAY: i64 = 86_400_000;
    let date = |day: i64| conflict_name("a", day * DAY, 0);
    assert_eq!(date(-1), "a-冲突1231-0000");
    assert_eq!(date(0), "a-冲突0101-0000");
    assert_eq!(date(30), "a-冲突0131-0000");
    assert_eq!(date(31), "a-冲突0201-0000");
    assert_eq!(date(58), "a-冲突0228-0000");
    assert_eq!(date(59), "a-冲突0301-0000");
    assert_eq!(month_day(-1), (12, 31));
    assert_eq!(month_day(-719_468), (3, 1));
    assert_eq!(month_day(i64::MIN), month_day(i64::MIN + 146_097));
    for day in [-719_468, -400, -1, 0, 58, 59, 789, 20_000] {
        assert_eq!(date(day), date(day + 146_097), "{day}");
        assert_eq!(month_day(day), month_day(day + 146_097), "{day}");
        assert_ne!(date(day), date(day + 1), "{day}");
    }
}

#[test]
fn write_conflict_copy_creates_indexed_note() {
    let ms = 1_789_633_800_000i64;
    let mut disk: BTreeSet<String> = BTreeSet::new();
    let c1 = conflict_copy_name("工作/笔记.md", ms, |n| disk.contains(n)).unwrap();
    assert!(c1.starts_with("工作/笔记-冲突0917-0830"));
    assert!(c1.ends_with(".md"));
    let row = write_note_bytes(&c1, "服务器版本".as_bytes(), ms);
    assert_eq!(row.body, "服务器版本");
    assert_eq!(row.hash, content_hash("服务器版本".as_bytes()));
    assert!(!row.title.is_empty());
    disk.insert(c1.clone());

    let c2 = conflict_copy_name("工作/笔记.md", ms, |n| disk.contains(n)).unwrap();
    assert_ne!(c1, c2);
    assert!(c2.contains("-2.md"), "{c2}");
}

#[test]
fn a_conflict_copy_is_written_under_the_first_free_name() {
    let bytes = "服务器版本".as_bytes().to_vec();
    let name = conflict_name("工作/笔记.md", 0, 2);
    let written = Cell::new(0);
    let taken = |n: &String| *n == conflict_name("工作/笔记.md", 0, 0);
    let got = write_conflict_copy("工作/笔记.md", "note", &bytes, 0, taken, |w| {
        written.set(written.get() + 1);
        assert_eq!((&w.path, &w.bytes, w.time_ms, w.revives), (&name, &bytes, None, false));
        let row = w.row.as_ref().unwrap();
        assert_eq!((&row.path, row.body.as_str(), row.mtime_ms), (&name, "服务器版本", 0));
        assert_eq!((row.title.as_str(), &row.hash), ("笔记-冲突0101-0000-2", &content_hash(&bytes)));
        Ok(())
    });
    assert_eq!((got.as_ref(), written.get()), (Ok(&name), 1));
    let asset = write_conflict_copy("assets/x.png", "asset", &bytes, 0, |_| false, |w| {
        assert!(w.row.is_none());
        Ok(())
    });
    assert_eq!(asset.unwrap(), "assets/x-冲突0101-0000.png");
    let full = write_conflict_copy("a.md", "note", &bytes, 0, |_| false, |_| Err("满".to_string()));
    assert_eq!(full.unwrap_err(), "满");
    let none = write_conflict_copy("a.md", "note", &bytes, 0, |_| true, |_| panic!("written"));
    assert_eq!(none.unwrap_err(), "冲突副本命名耗尽");
}

#[test]
fn conflict_copies_run_out_of_names() {
    let err = conflict_copy_name("a.md", 0, |_| true).unwrap_err();
    assert!(!err.is_empty());
    let last = conflict_name("a.md", 0, 100);
    let got = conflict_copy_name("a.md", 0, |n| *n != last);
    assert_eq!(got.unwrap(), last);
}

#[test]
fn write_conflict_copy_preserves_non_utf8_bytes() {
    let gbk = b"\xd6\xd0\xce\xc4";
    let row = write_note_bytes("n.md", gbk, 5);
    assert_eq!(row.hash, content_hash(gbk));
    assert_ne!(row.body.as_bytes(), gbk);
    assert!(row.body.contains('\u{fffd}'));
    assert_eq!(row.mtime_ms, 5);
    let plain = write_note_bytes("n.md", "中文".as_bytes(), 5);
    assert_eq!(plain.body, "中文");
    assert_eq!(plain.hash, write_note("n.md", "中文", 5).hash);
}

#[test]
fn local_manifest_notes_and_assets() {
    let notes = vec![
        NoteOnDisk { path: "笔记-A.md".into(), bytes: Some("内容甲".as_bytes().to_vec()), stat: Some((7, 9)) },
        NoteOnDisk { path: "没了.md".into(), bytes: None, stat: Some((1, 1)) },
        NoteOnDisk { path: "无时.md".into(), bytes: Some(vec![1]), stat: None },
    ];
    let file = |name: &str, is_file: bool, is_symlink: bool| AssetOnDisk {
        name: name.into(),
        is_file,
        is_symlink,
        bytes: b"png-data".to_vec(),
        mtime_ms: 3,
    };
    let assets = vec![file("a.png", true, false), file("目录", false, false), file("链接", true, true)];
    let manifest = local_manifest(&notes, &assets);
    let paths: Vec<&str> = manifest.iter().map(|m| m.path.as_str()).collect();
    assert_eq!(paths, vec!["笔记-A.md", "无时.md", "assets/a.png"]);
    let note = &manifest[0];
    assert_eq!(note.kind, "note");
    assert_eq!(note.hash, content_hash("内容甲".as_bytes()));
    assert_eq!((note.mtime_ms, note.size), (7, 9));
    assert_eq!((manifest[1].mtime_ms, manifest[1].size), (0, 0));
    let asset = &manifest[2];
    assert_eq!(asset.kind, "asset");
    assert_eq!(asset.size, 8);
    assert_eq!(asset.mtime_ms, 3);
    assert!(!paths.iter().any(|p| p.starts_with(".lanmark")));
}

#[test]
fn hashes_are_sha256_in_hexadecimal() {
    assert_eq!(content_hash(b""), "e3b0c44298fc1c149afbf4c8996fb92427ae41e4649b934ca495991b7852b855");
    assert_eq!(content_hash(b"abc"), "ba7816bf8f01cfea414140de5dae2223b00361a396177a9cb410ff61f20015ad");
}

#[test]
fn base64_goes_there_and_back() {
    assert_eq!(b64_encode(b"hello"), "aGVsbG8=");
    assert_eq!(b64_encode(b""), "");
    assert_eq!(b64_decode("aGVsbG8=").unwrap(), b"hello");
    let all: Vec<u8> = (0..=255).collect();
    assert_eq!(b64_decode(&b64_encode(&all)).unwrap(), all);
    let err = b64_decode("aGVsbG8").unwrap_err();
    assert!(err.starts_with("base64 解码失败: "), "{err}");
    assert_eq!(b64_told(Err("坏".into())).unwrap_err(), "base64 解码失败: 坏");
}

#[test]
fn tombstones_of_an_entry_come_and_go() {
    let mut list: Vec<Tombstone> = Vec::new();
    let files = vec![("d/a.md".to_string(), Some(b"abc".to_vec())), ("d/b.md".to_string(), None)];
    record_tombstones_for_entry(&mut list, &files, 9);
    assert_eq!(list.len(), 1);
    assert_eq!(list[0].hash, content_hash(b"abc"));
    assert_eq!((list[0].mtime_ms, list[0].deleted_at), (9, 9));
    let newer = Tombstone { path: "d/a.md".into(), hash: "h".into(), mtime_ms: 10, deleted_at: 11 };
    upsert_tombstone(&mut list, newer);
    assert_eq!(list.len(), 1);
    assert_eq!(list[0].hash, "h");
    clear_tombstones_for_entry(&mut list, &vec!["d/a.md".to_string(), "d/b.md".to_string()]);
    assert!(list.is_empty());
}
