//! Scanning the local network.
use std::cell::{Cell, RefCell};
use std::collections::HashMap;

use lanmark::lan_scan::{
    is_private_v4, is_virtual_iface, mask_v4, parse_ip_addr_output, parse_ip_neigh_output, run_scan, run_scan_with,
    subnet_candidates, BatchProbe, InfoProbe, Ipv4Addr, NetSegment, ScanPlan, ScannedDevice, L2_BUDGET_MS,
    MAX_CANDIDATES,
};

fn ip(s: &str) -> Ipv4Addr {
    s.parse().unwrap()
}

struct FakeProbe {
    answers: HashMap<String, ScannedDevice>,
}

impl FakeProbe {
    fn new(pairs: &[(&str, &str, &str, u64)]) -> Self {
        Self {
            answers: pairs
                .iter()
                .map(|(url, name, id, notes)| {
                    (
                        url.to_string(),
                        ScannedDevice {
                            name: name.to_string(),
                            url: url.to_string(),
                            device_id: id.to_string(),
                            notes: *notes,
                        },
                    )
                })
                .collect(),
        }
    }
}

impl InfoProbe for FakeProbe {
    fn probe(&self, url: &str) -> Option<ScannedDevice> {
        self.answers.get(url).cloned()
    }
}

struct Counting {
    hits: Cell<usize>,
}

impl InfoProbe for Counting {
    fn probe(&self, _url: &str) -> Option<ScannedDevice> {
        self.hits.set(self.hits.get() + 1);
        None
    }
}

fn plan(known: Vec<String>, neighbors: Vec<Ipv4Addr>, subnets: Vec<NetSegment>) -> ScanPlan {
    ScanPlan { known, neighbors, subnets, known_port: None, allow_subnet: true }
}

#[test]
fn only_private_segments_are_scanned() {
    assert!(is_private_v4("192.168.1.1".parse().unwrap()));
    assert!(is_private_v4("10.0.0.5".parse().unwrap()));
    assert!(is_private_v4("172.16.3.4".parse().unwrap()));
    assert!(is_private_v4("172.31.255.254".parse().unwrap()));
    assert!(is_private_v4("169.254.1.1".parse().unwrap()));
    assert!(!is_private_v4("8.8.8.8".parse().unwrap()));
    assert!(!is_private_v4("172.32.0.1".parse().unwrap()));
    assert!(!is_private_v4("192.169.1.1".parse().unwrap()));
}

#[test]
fn virtual_ifaces_are_skipped() {
    for n in ["docker0", "veth1234", "br-abc", "utun3", "tun0", "wg0", "lo"] {
        assert!(is_virtual_iface(n), "{n} 应判为虚拟");
    }
    for n in ["wlan0", "eth0", "enp3s0", "wlp2s0"] {
        assert!(!is_virtual_iface(n), "{n} 是真实网卡");
    }
}

#[test]
fn subnet_candidates_dedup_and_filter() {
    let ifaces = vec![
        ("wlan0".to_string(), ip("192.168.128.5"), 22u8),
        ("eth0".to_string(), ip("192.168.128.9"), 22u8),
        ("docker0".to_string(), ip("172.17.0.1"), 16u8),
        ("eth1".to_string(), ip("203.0.113.7"), 24u8),
    ];
    let segs = subnet_candidates(&ifaces);
    assert_eq!(segs.len(), 1, "同段去重且跳虚拟/公网: {segs:?}");
    assert_eq!(segs[0].prefix, 22);
}

#[test]
fn hosts_of_slash22_is_1022() {
    let seg = NetSegment { network: ip("192.168.128.0"), prefix: 22 };
    let hosts = seg.hosts();
    assert_eq!(hosts.len(), 1022);
    assert_eq!(hosts[0], ip("192.168.128.1"));
    assert_eq!(*hosts.last().unwrap(), ip("192.168.131.254"));
}

#[test]
fn hosts_edge_prefixes() {
    let s24 = NetSegment { network: ip("10.0.0.0"), prefix: 24 };
    assert_eq!(s24.hosts().len(), 254);
    assert!(NetSegment { network: ip("10.0.0.0"), prefix: 31 }.hosts().is_empty());
    assert!(NetSegment { network: ip("10.0.0.1"), prefix: 32 }.hosts().is_empty());
}

#[test]
fn parse_ip_addr_output_reads_iface_and_cidr() {
    let text = "\
1: lo    inet 127.0.0.1/8 scope host lo\\       valid_lft forever
2: wlan0    inet 192.168.128.23/22 brd 192.168.131.255 scope global dynamic wlan0
3: docker0    inet 172.17.0.1/16 brd 172.17.255.255 scope global docker0
";
    let got = parse_ip_addr_output(text);
    assert_eq!(got.len(), 3);
    assert_eq!(got[1].0, "wlan0");
    assert_eq!(got[1].1, ip("192.168.128.23"));
    assert_eq!(got[1].2, 22);
}

#[test]
fn parse_ip_neigh_output_keeps_private_only() {
    let text = "\
192.168.128.1 dev wlan0 lladdr aa:bb:cc:dd:ee:ff REACHABLE
192.168.128.55 dev wlan0 lladdr 11:22:33:44:55:66 STALE
8.8.8.8 dev wlan0 lladdr 00:11:22:33:44:55 REACHABLE
192.168.128.1 dev wlan0 lladdr aa:bb:cc:dd:ee:ff STALE
";
    let got = parse_ip_neigh_output(text);
    assert_eq!(got.len(), 2, "公网条目与重复项都该去掉: {got:?}");
    assert!(got.contains(&ip("192.168.128.1")));
    assert!(got.contains(&ip("192.168.128.55")));
}

#[test]
fn l0_hit_stops_before_neighbor_and_subnet() {
    let probe = FakeProbe::new(&[("http://192.168.1.5:4180", "REDMI K90", "dev-abc", 42)]);
    let p = plan(
        vec!["http://192.168.1.5:4180".into()],
        vec![ip("192.168.1.99")],
        vec![NetSegment { network: ip("192.168.1.0"), prefix: 24 }],
    );
    let out = run_scan(&p, &probe, |_| 0);
    assert_eq!(out.devices.len(), 1);
    assert_eq!(out.devices[0].name, "REDMI K90");
    assert_eq!(out.devices[0].device_id, "dev-abc");
    assert_eq!(out.devices[0].notes, 42);
}

#[test]
fn falls_through_to_neighbor_when_known_misses() {
    let probe = FakeProbe::new(&[("http://10.0.0.7:4180", "office-pad", "dev-xyz", 7)]);
    let p = plan(vec!["http://192.168.1.5:4180".into()], vec![ip("10.0.0.7")], vec![]);
    let out = run_scan(&p, &probe, |_| 0);
    assert_eq!(out.devices.len(), 1);
    assert_eq!(out.devices[0].url, "http://10.0.0.7:4180");
}

#[test]
fn subnet_scan_finds_device_when_earlier_layers_empty() {
    let probe = FakeProbe::new(&[("http://192.168.128.30:4180", "phone", "d1", 3)]);
    let p = plan(vec![], vec![], vec![NetSegment { network: ip("192.168.128.0"), prefix: 24 }]);
    let out = run_scan(&p, &probe, |_| 0);
    assert_eq!(out.devices.len(), 1);
    assert_eq!(out.devices[0].url, "http://192.168.128.30:4180");
}

#[test]
fn subnet_layer_disabled_by_switch() {
    let probe = FakeProbe::new(&[("http://192.168.128.30:4180", "phone", "d1", 3)]);
    let mut p = plan(vec![], vec![], vec![NetSegment { network: ip("192.168.128.0"), prefix: 24 }]);
    p.allow_subnet = false;
    let out = run_scan(&p, &probe, |_| 0);
    assert!(out.devices.is_empty(), "关了开关不得做网段全扫");
}

#[test]
fn known_port_narrows_candidates() {
    let probe = Counting { hits: Cell::new(0) };
    let mut p = plan(vec![], vec![ip("192.168.1.9")], vec![]);
    p.known_port = Some(4183);
    run_scan(&p, &probe, |_| 0);
    assert_eq!(probe.hits.get(), 1, "已知端口只探 1 次");
    let probe = Counting { hits: Cell::new(0) };
    p.known_port = None;
    run_scan(&p, &probe, |_| 0);
    assert_eq!(probe.hits.get(), 10);
}

#[test]
fn non_lanmark_candidates_are_dropped() {
    let probe = FakeProbe::new(&[]);
    let p = plan(vec!["http://192.168.1.5:4180".into()], vec![ip("192.168.1.9")], vec![]);
    let out = run_scan(&p, &probe, |_| 0);
    assert!(out.devices.is_empty());
    assert!(!out.truncated);
}

#[test]
fn results_are_deduplicated_by_url() {
    let probe = FakeProbe::new(&[("http://192.168.1.5:4180", "phone", "d1", 1)]);
    let p = plan(
        vec!["http://192.168.1.5:4180".into(), "http://192.168.1.5:4180".into()],
        vec![],
        vec![],
    );
    let out = run_scan(&p, &probe, |_| 0);
    assert_eq!(out.devices.len(), 1, "重复候选只出一条");
}

#[test]
fn candidate_cap_is_respected() {
    let p = plan(vec![], vec![], vec![NetSegment { network: ip("10.2.0.0"), prefix: 16 }]);
    let seg = &p.subnets[0];
    assert!(seg.hosts().len() > MAX_CANDIDATES);
    let _ = run_scan(&p, &FakeProbe::new(&[]), |_| 0);
    let probe = Counting { hits: Cell::new(0) };
    run_scan(&p, &probe, |_| 0);
    assert_eq!(probe.hits.get(), MAX_CANDIDATES);
}

/// Answers at one address, and remembers which were asked.
struct Watching {
    at: String,
    asked: RefCell<Vec<String>>,
}

impl InfoProbe for Watching {
    fn probe(&self, url: &str) -> Option<ScannedDevice> {
        self.asked.borrow_mut().push(url.to_string());
        let found = ScannedDevice { name: "n".into(), url: url.to_string(), device_id: "d".into(), notes: 0 };
        (url == self.at).then_some(found)
    }
}

#[test]
fn later_layers_are_asked_only_where_the_earlier_are_silent() {
    let ask = |at: &str, allow: bool| {
        let probe = Watching { at: at.to_string(), asked: RefCell::new(Vec::new()) };
        let near = NetSegment { network: ip("192.168.128.0"), prefix: 30 };
        let mut p = plan(vec!["http://10.0.0.5:4180".into()], vec![ip("10.0.0.7")], vec![near]);
        p.known_port = Some(4180);
        p.allow_subnet = allow;
        run_scan(&p, &probe, |_| 0);
        probe.asked.into_inner()
    };
    let (known, neighbor) = ("http://10.0.0.5:4180", "http://10.0.0.7:4180");
    assert_eq!(ask(known, true), vec![known]);
    assert_eq!(ask(neighbor, true), vec![known, neighbor]);
    assert_eq!(ask("", false), vec![known, neighbor]);
    let all = ask("", true);
    assert_eq!(all[..2], [known.to_string(), neighbor.to_string()]);
    assert!(all.len() > 2 && all[2..].iter().all(|u| u.starts_with("http://192.168.128.")));
}

#[test]
fn a_scan_in_turn_minds_its_time() {
    let ask = |late_at: usize, hit: &str| {
        let probe = Watching { at: hit.to_string(), asked: RefCell::new(Vec::new()) };
        let mut p = plan(vec!["http://10.0.0.5:4180".into()], vec![], vec![NetSegment { network: ip("10.1.0.0"), prefix: 24 }]);
        p.known_port = Some(4180);
        let out = run_scan(&p, &probe, |i| if i < late_at { L2_BUDGET_MS - 1 } else { L2_BUDGET_MS });
        (probe.asked.into_inner().len(), out.devices.len(), out.truncated)
    };
    assert_eq!(L2_BUDGET_MS, 3000);
    // The known address has no limit of time; of the network three are asked.
    assert_eq!(ask(3, ""), (1 + 3, 0, true));
    assert_eq!(ask(0, ""), (1, 0, true));
    let all = NetSegment { network: ip("10.1.0.0"), prefix: 24 }.hosts().len();
    assert_eq!(ask(all, ""), (1 + all, 0, false));
    assert_eq!(ask(all - 1, ""), (all, 0, true));
    assert_eq!(ask(3, "http://10.1.0.2:4180"), (1 + 3, 1, true));
    assert_eq!(ask(0, "http://10.0.0.5:4180"), (1, 1, false));
}

struct Tired;

impl BatchProbe for Tired {
    fn probe_batch(&self, _urls: &Vec<String>, limited: bool) -> (Vec<ScannedDevice>, bool) {
        (Vec::new(), limited)
    }
}

#[test]
fn a_scan_that_runs_out_of_time_says_so() {
    let p = plan(vec![], vec![], vec![NetSegment { network: ip("10.1.0.0"), prefix: 24 }]);
    let out = run_scan_with(&p, &Tired);
    assert!(out.devices.is_empty());
    assert!(out.truncated);
}

#[test]
fn addresses_read_and_write() {
    assert_eq!(Ipv4Addr::new(192, 168, 0, 1).text(), "192.168.0.1");
    assert_eq!(ip("1.2.3.4").octets(), (1, 2, 3, 4));
    for bad in ["", "1.2.3", "1.2.3.4.5", "256.1.1.1", "01.2.3.4", "1.2.3.x", " 1.2.3.4"] {
        assert!(bad.parse::<Ipv4Addr>().is_err(), "{bad}");
    }
    assert_eq!(mask_v4(ip("192.168.131.77"), 22), ip("192.168.128.0"));
    assert_eq!(mask_v4(ip("1.2.3.4"), 0), ip("0.0.0.0"));
    assert_eq!(mask_v4(ip("1.2.3.4"), 32), ip("1.2.3.4"));
    let once = mask_v4(ip("10.9.8.7"), 13);
    assert_eq!(mask_v4(once, 13), once);
}
