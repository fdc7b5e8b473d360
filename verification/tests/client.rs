//! Known servers, pairing with them, and finding them.
use std::cell::RefCell;
use std::collections::BTreeMap;

use lanmark::discovery::{note_announced, rank_devices, scan_plan, scan_result, Discovered};
use lanmark::fs_ops::content_hash;
use lanmark::lan_scan::{Ipv4Addr, NetSegment, ScanOutcome, ScannedDevice};
use lanmark::pairing::{
    client_name, connect_secs, pair_polled, pair_posted, request_pair_blocking, PairAttempt, PairStatus, PollNext,
};
use lanmark::sync_client::{
    auth_bearer, delete_batch, fetch_info, fetch_manifest, fetch_tombstones, find_server, id_with_hash, keep_profile,
    match_by_identity, migrate_profiles_to_device_id, new_profile, normalize_url, note_success, pair, port_of_url,
    probe_server, profile_id, pull_batch, push_batch, server_remove, server_set_url, sync_state_path, Answer,
    InfoResponse, ServerProfile,
};

fn info(device_id: &str) -> InfoResponse {
    InfoResponse { app: "lanmark".into(), name: "手机".into(), device_id: device_id.into(), notes: 3, assets: 1 }
}

fn ok<T>(body: T) -> Answer<T> {
    Answer::Status(200, "200 OK".into(), Ok(body))
}

#[test]
fn normalize_url_rules() {
    assert_eq!(normalize_url(" http://1.2.3.4:4180/ ").unwrap(), "http://1.2.3.4:4180");
    assert!(normalize_url("https://x").is_err(), "仅明文 http");
    assert!(normalize_url("ftp://x").is_err());
    assert!(normalize_url("1.2.3.4").is_err());
    assert!(normalize_url("").is_err());
    assert_eq!(normalize_url(" // ").unwrap_err(), "地址不能为空");
    let once = normalize_url("http://x///").unwrap();
    assert_eq!(normalize_url(&once).unwrap(), once);
    // A blank before the slashes is left over the first time.
    assert_eq!(normalize_url("http://a /").unwrap(), "http://a ");
}

#[test]
fn profile_id_binds_device_identity() {
    let a = profile_id("abc123", "http://192.168.1.5:4180", "tok1");
    let b = profile_id("abc123", "http://192.168.1.99:4180", "tok2");
    assert_eq!(a, b, "同一设备的 id 必须与 url/token 无关");
    assert_eq!(a, "dabc123");
    let c = profile_id("", "http://192.168.1.5:4180", "tok1");
    assert!(c.starts_with('s'));
    assert_ne!(c, profile_id("", "http://192.168.1.9:4180", "tok1"));
    assert_eq!(profile_id("", "ab", "c"), "sba7816bf");
    assert_eq!(id_with_hash("", "0123456789"), "s01234567");
}

#[test]
fn match_by_identity_prefers_device_id_over_name() {
    let servers = vec![
        ServerProfile { id: "d1".into(), name: "手机".into(), device_id: "dev-1".into(), ..Default::default() },
        ServerProfile { id: "d2".into(), name: "手机".into(), device_id: "dev-2".into(), ..Default::default() },
    ];
    assert_eq!(match_by_identity(&servers, "dev-2", "手机").unwrap().id, "d2");
    assert!(match_by_identity(&servers, "", "手机").is_none(), "有身份的不能被名称匹配到");
    let legacy = vec![ServerProfile {
        id: "s1".into(),
        name: "老手机".into(),
        device_id: "".into(),
        ..Default::default()
    }];
    assert_eq!(match_by_identity(&legacy, "", "老手机").unwrap().id, "s1");
    assert_eq!(match_by_identity(&legacy, "dev-new", "老手机").unwrap().id, "s1");
    assert!(match_by_identity(&legacy, "dev-new", "别的名字").is_none());
}

/// A disk that holds only what is known of servers.
type States = RefCell<BTreeMap<String, String>>;

fn migrate(
    servers: &mut Vec<ServerProfile>,
    states: &States,
    answer: &dyn Fn(&str) -> Result<InfoResponse, String>,
) -> usize {
    migrate_profiles_to_device_id(
        "/v",
        servers,
        |url| answer(url),
        |p| states.borrow().contains_key(p),
        |from, to| {
            let v = states.borrow_mut().remove(from).unwrap();
            states.borrow_mut().insert(to.clone(), v);
            true
        },
    )
}

#[test]
fn migrate_renames_baseline_file_and_keeps_state() {
    let (base, token, device_id) = ("http://127.0.0.1:4180", "tok", "device-1");
    let old_id = format!("s{}", &content_hash(format!("{base}{token}").as_bytes())[..8]);
    let mut servers = vec![ServerProfile {
        id: old_id.clone(),
        name: "手机".into(),
        url: base.into(),
        token: token.into(),
        last_success_at: None,
        device_id: String::new(),
        port: None,
    }];
    let states: States = RefCell::new(BTreeMap::new());
    states.borrow_mut().insert(sync_state_path("/v", &old_id), "{\"笔记.md\":\"deadbeef\"}".into());

    let n = migrate(&mut servers, &states, &|_| Ok(info(device_id)));
    assert_eq!(n, 1);
    assert_eq!(servers[0].device_id, device_id, "换绑到设备身份");
    assert_eq!(servers[0].id, format!("d{device_id}"));
    assert_ne!(servers[0].id, old_id);
    assert_eq!(servers[0].port, Some(4180));

    let new_path = sync_state_path("/v", &servers[0].id);
    assert_eq!(new_path, "/v/.lanmark/sync-ddevice-1.json");
    assert!(!states.borrow().contains_key(&sync_state_path("/v", &old_id)), "旧文件应已改名");
    assert_eq!(states.borrow().get(&new_path).unwrap(), "{\"笔记.md\":\"deadbeef\"}");

    let mut again = servers.clone();
    assert_eq!(migrate(&mut again, &states, &|_| panic!("asked")), 0);
    assert_eq!(again[0], servers[0]);
}

#[test]
fn migrate_skips_unreachable_devices() {
    let states: States = RefCell::new(BTreeMap::new());
    let mut servers = vec![ServerProfile {
        id: "sold1234".into(),
        name: "离线手机".into(),
        url: "http://127.0.0.1:1".into(),
        token: "tok".into(),
        device_id: String::new(),
        ..Default::default()
    }];
    assert_eq!(migrate(&mut servers, &states, &|_| Err("连接失败".into())), 0);
    assert_eq!(servers[0].id, "sold1234", "id 保持原样");
    assert!(servers[0].device_id.is_empty());
    assert_eq!(servers[0].token, "tok", "凭据不丢");
}

#[test]
fn migrate_keeps_the_old_id_where_the_state_cannot_move() {
    let mut servers =
        vec![ServerProfile { id: "sold".into(), url: "http://a:1".into(), ..Default::default() }];
    let n = migrate_profiles_to_device_id("/v", &mut servers, |_| Ok(info("x")), |p| p.contains("sold"), |_, _| false);
    assert_eq!(n, 0);
    assert_eq!(servers[0].id, "sold");
    // What is there under the new id already stays.
    let n = migrate_profiles_to_device_id("/v", &mut servers, |_| Ok(info("x")), |_| true, |_, _| panic!("renamed"));
    assert_eq!(n, 1);
    assert_eq!(servers[0].id, "dx");
    assert_eq!(servers[0].name, "手机");
}

#[test]
fn legacy_server_without_device_id_keeps_hash_profile() {
    let states: States = RefCell::new(BTreeMap::new());
    let mut servers = vec![ServerProfile {
        id: "skeep".into(),
        name: "旧手机".into(),
        url: "http://127.0.0.1:1".into(),
        token: "t".into(),
        ..Default::default()
    }];
    assert_eq!(migrate(&mut servers, &states, &|_| Err("x".into())), 0);
    assert_eq!(servers[0].id, "skeep");
    assert_eq!(migrate(&mut servers, &states, &|_| Ok(info(""))), 0);
    assert_eq!(servers[0].id, "skeep");
}

#[test]
fn port_of_url_parses_typical_forms() {
    assert_eq!(port_of_url("http://192.168.1.5:4180"), Some(4180));
    assert_eq!(port_of_url("http://192.168.1.5:4189/"), Some(4189));
    assert_eq!(port_of_url("http://phone.local:4180"), Some(4180));
    assert_eq!(port_of_url("http://192.168.1.5"), None);
    assert_eq!(port_of_url("nonsense"), None);
    assert_eq!(port_of_url("http://a:65536"), None);
    assert_eq!(port_of_url("http://a:"), None);
}

fn said(status: Option<&str>, token: Option<&str>, name: Option<&str>, reason: Option<&str>) -> Option<PairStatus> {
    let s = |t: Option<&str>| t.map(|x| x.to_string());
    Some(PairStatus { status: s(status), token: s(token), name: s(name), reason: s(reason) })
}

#[test]
fn connect_device_end_to_end() {
    let asked = RefCell::new(0);
    let attempt = request_pair_blocking(
        "http://10.0.0.2:4181/",
        &"桌面".to_string(),
        &"n1".to_string(),
        20,
        |u, client, nonce| {
            assert_eq!(u, "http://10.0.0.2:4181/api/v1/pair-request");
            assert_eq!((client.as_str(), nonce.as_str()), ("桌面", "n1"));
            Ok((200, "200 OK".to_string()))
        },
        |_| false,
        |u, nonce| {
            assert_eq!(u, "http://10.0.0.2:4181/api/v1/pair-status");
            assert_eq!(nonce, "n1");
            *asked.borrow_mut() += 1;
            if *asked.borrow() < 3 {
                said(Some("pending"), None, None, None)
            } else {
                said(Some("approved"), Some("tok"), Some("Lanmark 手机"), None)
            }
        },
        |u| {
            assert_eq!(u, "http://10.0.0.2:4181/api/v1/info");
            ok(info("dev-9"))
        },
    );
    assert_eq!(attempt.status, "approved", "{:?}", attempt.reason);
    let profile = attempt.profile.expect("批准后应给出 profile");
    assert_eq!(profile.device_id, "dev-9", "profile 绑设备身份");
    assert_eq!(profile.id, "ddev-9");
    assert_eq!(profile.name, "Lanmark 手机");
    assert!(!profile.token.is_empty());
    assert_eq!(profile.port, port_of_url("http://10.0.0.2:4181"));
    assert_eq!(*asked.borrow(), 3);
}

#[test]
fn connect_device_rejected() {
    let attempt = request_pair_blocking(
        "http://a:1",
        &"c".to_string(),
        &"n".to_string(),
        20,
        |_, _, _| Ok((200, String::new())),
        |_| false,
        |_, _| said(Some("rejected"), None, None, None),
        |_| ok(info("x")),
    );
    assert_eq!(attempt.status, "rejected");
    assert!(attempt.profile.is_none(), "拒绝不得留下 profile");
    assert_eq!(attempt.reason.unwrap(), "对方拒绝了这次连接");
}

#[test]
fn connect_device_times_out() {
    let asked = RefCell::new(0);
    let attempt = request_pair_blocking(
        "http://a:1",
        &"c".to_string(),
        &"n".to_string(),
        100,
        |_, _, _| Ok((200, String::new())),
        |k| k >= 2,
        |_, _| {
            *asked.borrow_mut() += 1;
            None
        },
        |_| ok(info("x")),
    );
    assert_eq!(attempt.status, "timeout");
    assert!(attempt.profile.is_none());
    assert_eq!(*asked.borrow(), 2);
    let attempt = request_pair_blocking(
        "http://a:1",
        &"c".to_string(),
        &"n".to_string(),
        4,
        |_, _, _| Ok((200, String::new())),
        |_| false,
        |_, _| None,
        |_| ok(info("x")),
    );
    assert_eq!(attempt.reason.unwrap(), "等待对方确认超时");
}

#[test]
fn connect_device_unreachable_reports_error() {
    let attempt = request_pair_blocking(
        "http://127.0.0.1:1",
        &"c".to_string(),
        &"n".to_string(),
        2,
        |_, _, _| Err("refused".to_string()),
        |_| false,
        |_, _| panic!("polled"),
        |_| panic!("asked"),
    );
    assert_eq!(attempt.status, "error");
    assert_eq!(attempt.reason.unwrap(), "连接失败: refused");
}

#[test]
fn connect_device_validates_url() {
    let attempt = request_pair_blocking(
        "192.168.1.5:4180",
        &"c".to_string(),
        &"n".to_string(),
        2,
        |_, _, _| panic!("posted"),
        |_| false,
        |_, _| panic!("polled"),
        |_| panic!("asked"),
    );
    assert_eq!(attempt.status, "error");
    assert!(attempt.reason.unwrap().contains("http://"));
}

#[test]
fn what_a_request_for_pairing_meets() {
    let reason = |code: u16, shown: &str| pair_posted(&Ok((code, shown.to_string()))).unwrap().reason.unwrap();
    assert!(pair_posted(&Ok((204, String::new()))).is_none());
    assert_eq!(reason(429, ""), "对方手机上待确认的请求过多，请稍后再试");
    assert_eq!(reason(404, ""), "对方是无一键授权的旧版本，请用「手动连接」输入配对码");
    assert_eq!(reason(500, "500 X"), "请求失败（HTTP 500 X）");
}

#[test]
fn what_a_server_says_of_a_request() {
    let end = |s: &Option<PairStatus>| -> Option<PairAttempt> {
        match pair_polled(s) {
            PollNext::End(a) => Some(a),
            _ => None,
        }
    };
    assert!(matches!(pair_polled(&None), PollNext::Wait));
    assert!(matches!(pair_polled(&said(Some("pending"), None, None, None)), PollNext::Wait));
    assert!(matches!(pair_polled(&said(Some("approved"), None, None, None)), PollNext::Wait));
    match pair_polled(&said(Some("approved"), Some("t"), None, None)) {
        PollNext::Approved(t, n) => assert_eq!((t.as_str(), n.as_str()), ("t", "Lanmark 手机")),
        _ => panic!(),
    }
    assert_eq!(end(&said(Some("rejected"), None, None, Some("忙"))).unwrap().reason.unwrap(), "忙");
    let gone = end(&said(Some("invalid"), None, None, None)).unwrap();
    assert_eq!((gone.status.as_str(), gone.reason.unwrap().as_str()), ("timeout", "请求已过期，请重试"));
    assert_eq!(end(&said(None, None, None, None)).unwrap().status, "timeout");
}

#[test]
fn pair_requires_correct_code() {
    let code = "12345678";
    let post = |_: &String, c: &String| -> Answer<(String, String)> {
        if c == code {
            ok(("tok".to_string(), "手机".to_string()))
        } else {
            Answer::Status(403, "403 Forbidden".into(), Err(String::new()))
        }
    };
    assert_eq!(pair("http://p:4180", "00000000", post).unwrap_err(), "配对码错误");
    assert_eq!(pair("http://p:4180", " 12345678 ", post).unwrap(), ("tok".to_string(), "手机".to_string()));
    assert!(pair("not-a-url", "x", post).is_err());
    assert!(pair("http://p:4180", "", post).is_err());
    let bad = |_: &String, _: &String| Answer::Status(500, "500 X".to_string(), Err(String::new()));
    assert_eq!(pair("http://p:4180", code, bad).unwrap_err(), "配对失败（HTTP 500 X）");
    let broken = |_: &String, _: &String| Answer::Status(200, String::new(), Err("坏".to_string()));
    assert_eq!(pair("http://p:4180", code, broken).unwrap_err(), "坏");
    let gone = |_: &String, _: &String| Answer::NoConnection("断".to_string());
    assert_eq!(pair("http://p:4180", code, gone).unwrap_err(), "连接失败: 断");
    let target = |u: &String, _: &String| -> Answer<(String, String)> { ok((u.clone(), String::new())) };
    assert_eq!(pair("http://p:4180/", code, target).unwrap().0, "http://p:4180/api/v1/pair");
}

#[test]
fn sync_round_fails_gracefully_without_vault_or_server() {
    let err = fetch_manifest(Answer::NoConnection("refused".into())).unwrap_err();
    assert_eq!(err, "拉取清单失败: refused");
    assert!(lanmark::commands::open_vault(None).is_err());
}

#[test]
fn fetch_tombstones_404_degrades_to_empty() {
    let ts = fetch_tombstones(Answer::Status(404, "404 Not Found".into(), Err("x".into()))).unwrap();
    assert!(ts.is_empty(), "404 必须按空列表处理");
    let err = fetch_tombstones(Answer::Status(500, "500 X".into(), Err("x".into()))).unwrap_err();
    assert_eq!(err, "拉取 tombstone 失败（HTTP 500 X）");
    assert_eq!(fetch_tombstones(Answer::NoConnection("断".into())).unwrap_err(), "拉取 tombstone 失败: 断");
    let err = fetch_tombstones(Answer::Status(200, String::new(), Err("坏".into()))).unwrap_err();
    assert_eq!(err, "tombstone 解析失败: 坏");
}

#[test]
fn what_servers_answer_is_told_apart() {
    let err = fetch_manifest(Answer::Status(401, "401 Unauthorized".into(), Err("x".into()))).unwrap_err();
    assert_eq!(err, "拉取清单失败（HTTP 401 Unauthorized）");
    assert_eq!(fetch_manifest(Answer::Status(299, String::new(), Err("坏".into()))).unwrap_err(), "清单解析失败: 坏");
    assert_eq!(pull_batch(Answer::Status(200, String::new(), Err("坏".into()))).unwrap_err(), "坏");
    assert_eq!(push_batch(Answer::Status(200, String::new(), Err("坏".into()))).unwrap_err(), "推送响应解析失败: 坏");
    assert_eq!(
        delete_batch(Answer::Status(200, String::new(), Err("坏".into()))).unwrap_err(),
        "删除传播响应解析失败: 坏"
    );
    assert!(push_batch(ok(Vec::new())).unwrap().is_empty());
    assert_eq!(auth_bearer("t"), "Bearer t");
}

#[test]
fn probe_server_online_and_offline() {
    let p = probe_server("http://p:4180/", "phone", |u| {
        assert_eq!(u, "http://p:4180/api/v1/info");
        ok(info("d"))
    });
    assert!(p.online);
    assert_eq!((p.name.as_str(), p.notes, p.assets), ("手机", 3, 1));
    let off = probe_server("http://127.0.0.1:1", "phone", |_| Answer::NoConnection("x".into()));
    assert!(!off.online, "{off:?}");
    assert_eq!(off.name, "phone");
    assert_eq!((off.notes, off.assets), (0, 0));
}

#[test]
fn servers_of_others_are_turned_away() {
    let other = InfoResponse { app: "else".into(), ..info("x") };
    assert_eq!(fetch_info("http://p", |_| ok(other.clone())).unwrap_err(), "不是 Lanmark 服务器");
    let err = fetch_info("http://p", |_| Answer::Status(502, "502 Bad Gateway".into(), Err("x".into()))).unwrap_err();
    assert_eq!(err, "服务返回 502 Bad Gateway");
    let err = fetch_info("http://p", |_| Answer::Status(200, String::new(), Err("坏".into()))).unwrap_err();
    assert_eq!(err, "响应解析失败: 坏");
    assert_eq!(fetch_info("http://p", |_| Answer::NoConnection("断".into())).unwrap_err(), "连接失败: 断");
}

#[test]
fn a_server_is_listed_once() {
    let mut list = vec![
        new_profile("http://a:1", "t1", "甲", "dev-1"),
        new_profile("http://b:2", "t2", "乙", "dev-2"),
        new_profile("http://c:3", "t3", "丙", ""),
    ];
    keep_profile(&mut list, new_profile("http://c:3", "t4", "甲", "dev-1"));
    let ids: Vec<&str> = list.iter().map(|s| s.id.as_str()).collect();
    assert_eq!(ids, vec!["ddev-2", "ddev-1"]);
    assert_eq!(list[1].token, "t4");
    // Servers without identity are told apart by their addresses alone.
    keep_profile(&mut list, new_profile("http://d:4", "t5", "丁", ""));
    keep_profile(&mut list, new_profile("http://e:5", "t6", "戊", ""));
    assert_eq!(list.len(), 4);

    assert!(note_success(&mut list, "ddev-1", 99));
    assert_eq!(find_server(&list, "ddev-1").unwrap().last_success_at, Some(99));
    assert!(!note_success(&mut list, "nobody", 99));
    assert_eq!(find_server(&list, "nobody").unwrap_err(), "未找到服务器: nobody");
    let moved = server_set_url(&mut list, "ddev-1", "http://f:6/").unwrap();
    assert_eq!((moved.url.as_str(), moved.id.as_str()), ("http://f:6", "ddev-1"));
    assert_eq!(find_server(&list, "ddev-1").unwrap().url, "http://f:6");
    assert!(server_set_url(&mut list, "ddev-1", "f:6").is_err());
    assert_eq!(server_set_url(&mut list, "x", "http://g").unwrap_err(), "未找到服务器: x");
    server_remove(&mut list, "ddev-1");
    assert_eq!(list.len(), 3);
    assert!(find_server(&list, "ddev-1").is_err());
}

#[test]
fn announcements_are_listed_once_by_address() {
    let mut found: Vec<Discovered> = Vec::new();
    note_announced(&mut found, Some("192.168.1.5"), "phone.local.", 4180, "REDMI K90._lanmark._tcp.local.");
    note_announced(&mut found, Some("192.168.1.5"), "other.local.", 4180, "B._lanmark._tcp.local.");
    note_announced(&mut found, None, "pad.local.", 4181, "a\\.b._lanmark._tcp.local.");
    note_announced(&mut found, None, "..", 4182, "leer._lanmark._tcp.local.");
    assert_eq!(
        found,
        vec![
            Discovered { name: "REDMI K90".into(), url: "http://192.168.1.5:4180".into() },
            Discovered { name: "a.b".into(), url: "http://pad.local:4181".into() },
        ]
    );
}

fn device(name: &str, device_id: &str) -> ScannedDevice {
    ScannedDevice { name: name.into(), url: format!("http://{name}"), device_id: device_id.into(), notes: 0 }
}

#[test]
fn scans_begin_where_servers_were_before() {
    let announced = vec![Discovered { name: "甲".into(), url: "http://a:1".into() }];
    let servers = vec![new_profile("http://b:4185", "t", "乙", "dev-2"), new_profile("http://a:1", "t", "甲", "dev-1")];
    let seg = NetSegment { network: Ipv4Addr::new(10, 0, 0, 0), prefix: 24 };
    let p = scan_plan(&announced, &servers, vec![Ipv4Addr::new(10, 0, 0, 9)], vec![seg], None);
    assert_eq!(p.known, vec!["http://a:1", "http://b:4185"]);
    assert_eq!(p.known_port, Some(4185));
    assert!(p.allow_subnet);
    let p = scan_plan(&Vec::new(), &Vec::new(), Vec::new(), Vec::new(), Some(false));
    assert_eq!(p.known_port, None);
    assert!(!p.allow_subnet);
}

#[test]
fn paired_devices_come_first() {
    let servers = vec![new_profile("http://z", "t", "z", "dev-z")];
    let found = vec![device("c", "dev-c"), device("a", ""), device("z", "dev-z"), device("b", "")];
    let names: Vec<String> = rank_devices(&servers, found).into_iter().map(|d| d.name).collect();
    assert_eq!(names, vec!["z", "a", "b", "c"]);
    let r = scan_result(&servers, ScanOutcome { devices: vec![device("a", "")], truncated: true }, None);
    assert!(r.truncated && r.scanned_subnet);
    assert_eq!(r.devices.len(), 1);
}

#[test]
fn waiting_and_names_have_bounds() {
    assert_eq!(connect_secs(None), 90);
    assert_eq!(connect_secs(Some(1)), 5);
    assert_eq!(connect_secs(Some(1_000_000)), 300);
    assert_eq!(connect_secs(Some(30)), 30);
    assert_eq!(client_name(Some("pc"), Some("win"), Some("u")), "pc");
    assert_eq!(client_name(None, Some("win"), Some("u")), "win");
    assert_eq!(client_name(Some(" "), Some("win"), Some("u")), "u");
    assert_eq!(client_name(None, None, None), "Lanmark 电脑");
}
