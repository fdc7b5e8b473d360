//! The index: search with a real database behind it, and rows that move.
use lanmark::db::{
    escape_like, favorite_toggle, list_favorites, list_prefix_paths, list_recents, make_snippet, record_recent,
    remove_prefix, rename_path, rename_paths, search, search_hit, snippet, SearchHit,
};
use lanmark::strmap::StrMap;
use rusqlite::Connection;

fn mem() -> Connection {
    let conn = Connection::open_in_memory().unwrap();
    conn.execute_batch(
        "CREATE TABLE files (path TEXT PRIMARY KEY, title TEXT NOT NULL, body TEXT NOT NULL, mtime_ms INTEGER NOT NULL, is_note INTEGER NOT NULL)",
    )
    .unwrap();
    conn
}

fn upsert(c: &Connection, path: &str, title: &str, body: &str, mtime_ms: i64) {
    c.execute(
        "INSERT INTO files(path,title,body,mtime_ms,is_note) VALUES(?1,?2,?3,?4,1)
         ON CONFLICT(path) DO UPDATE SET title=?2, body=?3, mtime_ms=?4",
        (path, title, body, mtime_ms),
    )
    .unwrap();
}

fn find(c: &Connection, query: &str, limit: i64) -> Vec<SearchHit> {
    search(query, limit, |pat, limit| {
        let mut stmt = c
            .prepare(
                "SELECT path, title, body FROM files
                 WHERE is_note=1 AND (title LIKE ?1 ESCAPE '\\' OR body LIKE ?1 ESCAPE '\\')
                 ORDER BY (title LIKE ?1 ESCAPE '\\') DESC, mtime_ms DESC LIMIT ?2",
            )
            .map_err(|e| e.to_string())?;
        let rows = stmt
            .query_map((pat, limit), |r| Ok((r.get(0)?, r.get(1)?, r.get(2)?)))
            .map_err(|e| e.to_string())?;
        rows.collect::<Result<Vec<_>, _>>().map_err(|e| e.to_string())
    })
    .unwrap()
}

fn titles(pairs: &[(&str, &str)]) -> StrMap<String> {
    let mut m = StrMap::new();
    for (k, v) in pairs {
        m.insert(k.to_string(), v.to_string());
    }
    m
}

#[test]
fn chinese_search_with_snippet() {
    let c = mem();
    upsert(&c, "读书.md", "读书", "这是一段关于 Rust 异步编程 的记录", 1);
    upsert(&c, "其他.md", "其他", "无关内容", 1);
    let hits = find(&c, "异步编程", 20);
    assert_eq!(hits.len(), 1);
    assert_eq!(hits[0].path, "读书.md");
    assert!(hits[0].snippet.contains("异步编程"));
    upsert(&c, "异步编程.md", "异步编程", "正文没有关键词", 2);
    let hits = find(&c, "异步编程", 20);
    assert_eq!(hits[0].path, "异步编程.md");
    assert_eq!(hits[0].snippet, "正文没有关键词");
}

#[test]
fn snippet_survives_lowercase_expansion() {
    let s = make_snippet("İİ X", "X").unwrap();
    assert!(s.contains("X"));
    let s2 = make_snippet("前 İİİ 后文", "后文").unwrap();
    assert!(s2.contains("后文"));
    let s3 = make_snippet("İİ X", "i̇").unwrap();
    assert!(!s3.is_empty());
    let s4 = make_snippet("hello world", "WORLD").unwrap();
    assert!(s4.contains("hello world"));
}

#[test]
fn like_wildcards_escaped() {
    let c = mem();
    upsert(&c, "a.md", "a", "100% 完成", 1);
    assert_eq!(find(&c, "100%", 10).len(), 1);
    assert_eq!(find(&c, "1__", 10).len(), 0);
    assert_eq!(escape_like("1_%\\x"), "1\\_\\%\\\\x");
}

#[test]
fn an_empty_search_asks_for_nothing() {
    let hits = search("  \t", 5, |_, _| panic!("asked")).unwrap();
    assert!(hits.is_empty());
    assert_eq!(search("x", 5, |_, _| Err("坏".to_string())).unwrap_err(), "坏");
    let seen = search("  x ", 5, |p, n| Ok(vec![(p.clone(), n.to_string(), String::new())])).unwrap();
    assert_eq!(seen[0].path, "%x%");
}

#[test]
fn snippets_are_cut_around_the_hit() {
    let body = format!("{}靶{}", "a".repeat(50), "b\n".repeat(50));
    let s = make_snippet(&body, "靶").unwrap();
    assert_eq!(s, format!("…{}靶{}…", "a".repeat(40), "b ".repeat(20)));
    assert_eq!(make_snippet("短 靶", "靶").unwrap(), "短 靶");
    assert_eq!(make_snippet("没有", "靶"), None);
    assert_eq!(make_snippet("x", "").unwrap(), "x");
    // Lower case that is longer than the text itself.
    assert_eq!(snippet("ab", "xxxxq", "q").unwrap(), "ab");
    let long = "长".repeat(100);
    let h = search_hit("p", "t", &long, None);
    assert_eq!(h.snippet, "长".repeat(60));
}

#[test]
fn recents_capped_and_ordered() {
    let mut c: Vec<(String, i64)> = Vec::new();
    for i in 0..60 {
        record_recent(&mut c, &format!("{i}.md"), i, 50);
    }
    assert_eq!(c.len(), 50);
    let recent = list_recents(&c, &titles(&[]), 20);
    assert_eq!(recent.len(), 20);
    assert_eq!(recent[0].0, "59.md");
}

#[test]
fn a_note_that_is_opened_again_leads_the_recents() {
    let mut c: Vec<(String, i64)> = Vec::new();
    record_recent(&mut c, "a.md", 1, 50);
    record_recent(&mut c, "b.md", 2, 50);
    record_recent(&mut c, "a.md", 3, 50);
    let t = titles(&[("a.md", "甲")]);
    let got = list_recents(&c, &t, 10);
    assert_eq!(got, vec![("a.md".to_string(), "甲".to_string()), ("b.md".to_string(), "b.md".to_string())]);
    record_recent(&mut c, "c.md", 4, 0);
    assert!(c.is_empty());
}

#[test]
fn favorites_toggle() {
    let mut c: Vec<(String, i64)> = Vec::new();
    assert!(favorite_toggle(&mut c, "a.md", 1));
    assert!(!favorite_toggle(&mut c, "a.md", 2));
    assert_eq!(list_favorites(&c, &titles(&[])).len(), 0);
    assert!(favorite_toggle(&mut c, "a.md", 3));
    assert!(favorite_toggle(&mut c, "b.md", 4));
    let got = list_favorites(&c, &titles(&[]));
    assert_eq!(got[0].0, "b.md");
    assert_eq!(got[1].0, "a.md");
}

#[test]
fn rename_and_remove_prefix() {
    let files = vec!["目录/子/笔记.md".to_string(), "目录/顶.md".to_string(), "目录二/x.md".to_string()];
    let renamed = rename_paths(&files, "目录", "新目录");
    assert_eq!(renamed, vec!["新目录/子/笔记.md", "新目录/顶.md", "目录二/x.md"]);
    let recents = rename_paths(&vec!["目录/子/笔记.md".to_string()], "目录", "新目录");
    assert_eq!(recents, vec!["新目录/子/笔记.md"]);
    let left = remove_prefix(&renamed, "新目录");
    assert_eq!(left, vec!["目录二/x.md"]);
    assert!(remove_prefix(&recents, "新目录").is_empty());
}

#[test]
fn prefixes_are_whole_names() {
    let notes = vec!["a".to_string(), "a/b.md".to_string(), "ab.md".to_string(), "a%/b.md".to_string()];
    assert_eq!(list_prefix_paths(&notes, "a"), vec!["a", "a/b.md"]);
    assert_eq!(list_prefix_paths(&notes, "a%"), vec!["a%/b.md"]);
    assert_eq!(rename_path("a", "a", "c"), "c");
    assert_eq!(rename_path("ab.md", "a", "c"), "ab.md");
}
