//! Finding servers: what they announce, and where to look for them.
use vstd::prelude::*;

use crate::lan_scan::{Ipv4Addr, NetSegment, ScanOutcome, ScanPlan, ScannedDevice, ScannedDeviceView};
use crate::sync_client;
use crate::sync_client::{match_by_identity, port_of_url, ServerProfile, ServerProfileView};
use crate::sync_server;
use crate::sync_server::service_instance_name;
use crate::text;
use crate::text::{concat4, decimal_u64, list_has, same, str_lt, strip_end_char};

verus! {

/// A server that announces itself.
#[derive(Debug, PartialEq, Eq)]
pub struct Discovered {
    pub name: String,
    pub url: String,
}

pub struct DiscoveredView {
    pub name: Seq<char>,
    pub url: Seq<char>,
}

impl View for Discovered {
    type V = DiscoveredView;

    open spec fn view(&self) -> DiscoveredView {
        DiscoveredView { name: self.name@, url: self.url@ }
    }
}

impl Clone for Discovered {
    fn clone(&self) -> (r: Self)
        ensures
            r == *self,
    {
        Discovered { name: self.name.clone(), url: self.url.clone() }
    }
}

/// The host of a server: its first address, else its host name without the dots
/// at its end.
pub open spec fn host_of(address: Option<Seq<char>>, hostname: Seq<char>) -> Seq<char> {
    match address {
        Some(a) => a,
        None => text::trim_end_char(hostname, '.'),
    }
}

/// What an announcement says of a server.
pub open spec fn announced(host: Seq<char>, port: u16, fullname: Seq<char>) -> DiscoveredView {
    DiscoveredView {
        name: sync_server::instance_name(fullname),
        url: "http://"@ + host + ":"@ + text::decimal(port as nat),
    }
}

/// Whether a list has an entry with the address.
pub open spec fn lists_url(found: Seq<DiscoveredView>, url: Seq<char>) -> bool {
    exists|i: int| 0 <= i < found.len() && (#[trigger] found[i]).url == url
}

/// The servers found after one more announcement: one without a host, or with
/// an address that is there already, adds nothing.
pub open spec fn found_after(
    found: Seq<DiscoveredView>,
    address: Option<Seq<char>>,
    hostname: Seq<char>,
    port: u16,
    fullname: Seq<char>,
) -> Seq<DiscoveredView> {
    let host = host_of(address, hostname);
    let d = announced(host, port, fullname);
    if host.len() == 0 || lists_url(found, d.url) {
        found
    } else {
        found.push(d)
    }
}

fn url_listed(found: &Vec<Discovered>, url: &str) -> (r: bool)
    ensures
        r == lists_url(text::views(found@), url@),
{
    let ghost all = text::views(found@);
    let mut i: usize = 0;
    while i < found.len()
        invariant
            i <= found.len(),
            all == text::views(found@),
            forall|j: int| 0 <= j < i ==> (#[trigger] all[j]).url != url@,
        decreases found.len() - i,
    {
        assert(all[i as int] == found@[i as int]@);
        if same(found[i].url.as_str(), url) {
            return true;
        }
        i = i + 1;
    }
    false
}

/// Takes note of an announcement.
pub fn note_announced(
    found: &mut Vec<Discovered>,
    address: Option<&str>,
    hostname: &str,
    port: u16,
    fullname: &str,
)
    ensures
        text::views(final(found)@) == found_after(
            text::views(old(found)@),
            text::opt_str(address),
            hostname@,
            port,
            fullname@,
        ),
{
    broadcast use text::lemma_views_push;
    let host: String = match address {
        Some(a) => a.to_owned(),
        None => strip_end_char(hostname, '.'),
    };
    if host.as_str().is_empty() {
        return;
    }
    let p = decimal_u64(port as u64);
    let url = concat4("http://", host.as_str(), ":", p.as_str());
    if url_listed(found, url.as_str()) {
        return;
    }
    let name = service_instance_name(fullname);
    found.push(Discovered { name, url });
}

/// No address is listed twice.
pub open spec fn urls_differ(found: Seq<DiscoveredView>) -> bool {
    forall|i: int, j: int| 0 <= i < j < found.len() ==> (#[trigger] found[i]).url != (#[trigger] found[j]).url
}

/// Announcements never list an address twice.
pub proof fn law_announced_servers_are_unique(
    found: Seq<DiscoveredView>,
    address: Option<Seq<char>>,
    hostname: Seq<char>,
    port: u16,
    fullname: Seq<char>,
)
    requires
        urls_differ(found),
    ensures
        urls_differ(found_after(found, address, hostname, port, fullname)),
{
}

// ---------- where to look ----------

/// The addresses to try first: those that were announced, then those of the
/// known servers that are not among them.
pub open spec fn known_urls(announced: Seq<DiscoveredView>, servers: Seq<ServerProfileView>, n: int) -> Seq<
    Seq<char>,
>
    decreases n,
{
    if n <= 0 || n > servers.len() {
        announced.map_values(|d: DiscoveredView| d.url)
    } else {
        let before = known_urls(announced, servers, n - 1);
        if before.contains(servers[n - 1].url) {
            before
        } else {
            before.push(servers[n - 1].url)
        }
    }
}

/// Where to look for servers.
pub fn scan_plan(
    announced: &Vec<Discovered>,
    servers: &Vec<ServerProfile>,
    neighbors: Vec<Ipv4Addr>,
    subnets: Vec<NetSegment>,
    allow_subnet: Option<bool>,
) -> (r: ScanPlan)
    ensures
        text::views(r.known@) == known_urls(
            text::views(announced@),
            text::views(servers@),
            servers@.len() as int,
        ),
        r.neighbors == neighbors,
        r.subnets == subnets,
        servers@.len() == 0 ==> r.known_port is None,
        servers@.len() > 0 ==> sync_client::port_int(r.known_port) == sync_client::port_of(
            servers@[0]@.url,
        ),
        r.allow_subnet == match allow_subnet {
            Some(b) => b,
            None => true,
        },
{
    broadcast use text::lemma_views_push;
    let ghost ann = text::views(announced@);
    let ghost srv = text::views(servers@);
    let ghost f = |d: DiscoveredView| d.url;
    let mut known: Vec<String> = Vec::new();
    let mut i: usize = 0;
    assert(text::views(known@) =~= ann.take(0).map_values(f));
    while i < announced.len()
        invariant
            i <= announced.len(),
            ann == text::views(announced@),
            f == (|d: DiscoveredView| d.url),
            text::views(known@) == ann.take(i as int).map_values(f),
        decreases announced.len() - i,
    {
        broadcast use text::lemma_views_push;
        assert(ann.take(i + 1).map_values(f) =~= ann.take(i as int).map_values(f).push(
            announced@[i as int]@.url,
        ));
        known.push(announced[i].url.clone());
        i = i + 1;
    }
    assert(ann.take(ann.len() as int) =~= ann);
    let mut j: usize = 0;
    while j < servers.len()
        invariant
            j <= servers.len(),
            srv == text::views(servers@),
            text::views(known@) == known_urls(ann, srv, j as int),
        decreases servers.len() - j,
    {
        broadcast use text::lemma_views_push;
        assert(srv[j as int] == servers@[j as int]@);
        if !list_has(&known, servers[j].url.as_str()) {
            known.push(servers[j].url.clone());
        }
        j = j + 1;
    }
    let known_port: Option<u16> = if servers.len() > 0 {
        port_of_url(servers[0].url.as_str())
    } else {
        None
    };
    let allow: bool = match allow_subnet {
        Some(b) => b,
        None => true,
    };
    ScanPlan { known, neighbors, subnets, known_port, allow_subnet: allow }
}

// ---------- the order of what was found ----------

/// Whether a device is one that this side is paired with.
pub open spec fn is_paired(servers: Seq<ServerProfileView>, d: ScannedDeviceView) -> bool {
    sync_client::match_of(servers, d.device_id, d.name) is Some
}

/// Whether a device comes before another: paired devices come first, then the
/// name decides.
pub open spec fn ranks_before(servers: Seq<ServerProfileView>, a: ScannedDeviceView, b: ScannedDeviceView) -> bool {
    if is_paired(servers, a) != is_paired(servers, b) {
        is_paired(servers, a)
    } else {
        text::lex_lt(a.name, b.name)
    }
}

/// The devices in order with one more, behind those of the same rank.
pub open spec fn rank_insert(
    servers: Seq<ServerProfileView>,
    s: Seq<ScannedDeviceView>,
    d: ScannedDeviceView,
) -> Seq<ScannedDeviceView>
    decreases s.len(),
{
    if s.len() > 0 && ranks_before(servers, d, s.last()) {
        rank_insert(servers, s.drop_last(), d).push(s.last())
    } else {
        s.push(d)
    }
}

/// The devices in order; those of the same rank stay as they were.
pub open spec fn ranked(servers: Seq<ServerProfileView>, s: Seq<ScannedDeviceView>) -> Seq<ScannedDeviceView>
    decreases s.len(),
{
    if s.len() == 0 {
        Seq::empty()
    } else {
        rank_insert(servers, ranked(servers, s.drop_last()), s.last())
    }
}

/// Puts the devices that were found in order: those that this side is paired
/// with first.
pub fn rank_devices(servers: &Vec<ServerProfile>, devices: Vec<ScannedDevice>) -> (r: Vec<ScannedDevice>)
    ensures
        text::views(r@) == ranked(text::views(servers@), text::views(devices@)),
{
    let ghost srv = text::views(servers@);
    let ghost all = text::views(devices@);
    let mut out: Vec<ScannedDevice> = Vec::new();
    let mut i: usize = 0;
    assert(text::views(out@) =~= ranked(srv, all.take(0)));
    while i < devices.len()
        invariant
            i <= devices.len(),
            srv == text::views(servers@),
            all == text::views(devices@),
            text::views(out@) == ranked(srv, all.take(i as int)),
        decreases devices.len() - i,
    {
        assert(all.take(i + 1).drop_last() =~= all.take(i as int));
        assert(all.take(i + 1).last() == devices@[i as int]@);
        insert_ranked(servers, &mut out, devices[i].clone());
        i = i + 1;
    }
    assert(all.take(all.len() as int) =~= all);
    out
}

fn precedes(servers: &Vec<ServerProfile>, a: &ScannedDevice, b: &ScannedDevice) -> (r: bool)
    ensures
        r == ranks_before(text::views(servers@), a@, b@),
{
    let pa: bool = match_by_identity(servers.as_slice(), a.device_id.as_str(), a.name.as_str()).is_some();
    let pb: bool = match_by_identity(servers.as_slice(), b.device_id.as_str(), b.name.as_str()).is_some();
    if pa != pb {
        pa
    } else {
        str_lt(a.name.as_str(), b.name.as_str())
    }
}

fn insert_ranked(servers: &Vec<ServerProfile>, out: &mut Vec<ScannedDevice>, d: ScannedDevice)
    ensures
        text::views(final(out)@) == rank_insert(text::views(servers@), text::views(old(out)@), d@),
{
    let ghost srv = text::views(servers@);
    let ghost s = text::views(out@);
    let mut k: usize = out.len();
    assert(s.take(k as int) + s.skip(k as int) =~= s);
    assert(rank_insert(srv, s.take(k as int), d@) + s.skip(k as int) =~= rank_insert(srv, s, d@));
    while k > 0 && precedes(servers, &d, &out[k - 1])
        invariant
            k <= out.len(),
            srv == text::views(servers@),
            s == text::views(out@),
            rank_insert(srv, s.take(k as int), d@) + s.skip(k as int) == rank_insert(srv, s, d@),
        decreases k,
    {
        assert(s.take(k as int).last() == out@[k - 1]@);
        assert(s.take(k as int).drop_last() =~= s.take(k - 1));
        assert(rank_insert(srv, s.take(k - 1), d@).push(s[k - 1]) + s.skip(k as int) =~= rank_insert(
            srv,
            s.take(k - 1),
            d@,
        ) + s.skip(k - 1));
        k = k - 1;
    }
    assert(k > 0 ==> s.take(k as int).last() == out@[k - 1]@);
    assert(s.take(k as int).push(d@) + s.skip(k as int) =~= s.insert(k as int, d@));
    let ghost dv = d@;
    out.insert(k, d);
    assert(text::views(out@) =~= s.insert(k as int, dv));
}

proof fn lemma_contains_push(s: Seq<ScannedDeviceView>, d: ScannedDeviceView, x: ScannedDeviceView)
    ensures
        s.push(d).contains(x) <==> (s.contains(x) || x == d),
{
    if s.contains(x) {
        let i = choose|i: int| 0 <= i < s.len() && s[i] == x;
        assert(s.push(d)[i] == x);
    }
    assert(s.push(d)[s.len() as int] == d);
    if s.push(d).contains(x) && x != d {
        let i = choose|i: int| 0 <= i < s.push(d).len() && s.push(d)[i] == x;
        assert(s[i] == x);
    }
}

proof fn lemma_rank_insert(servers: Seq<ServerProfileView>, s: Seq<ScannedDeviceView>, d: ScannedDeviceView)
    ensures
        rank_insert(servers, s, d).to_multiset() == s.to_multiset().insert(d),
        in_rank(servers, s) ==> in_rank(servers, rank_insert(servers, s, d)),
        forall|x: ScannedDeviceView|
            rank_insert(servers, s, d).contains(x) <==> (s.contains(x) || x == d),
    decreases s.len(),
{
    broadcast use vstd::seq_lib::group_to_multiset_ensures;
    if s.len() > 0 && ranks_before(servers, d, s.last()) {
        let rest = s.drop_last();
        let r = rank_insert(servers, rest, d);
        lemma_rank_insert(servers, rest, d);
        assert(rest.push(s.last()) =~= s);
        assert(rank_insert(servers, s, d) == r.push(s.last()));
        assert(rest.to_multiset().insert(s.last()) =~= s.to_multiset());
        assert(r.push(s.last()).to_multiset() =~= s.to_multiset().insert(d));
        assert forall|x: ScannedDeviceView| r.push(s.last()).contains(x) <==> (s.contains(x) || x == d) by {
            lemma_contains_push(r, s.last(), x);
            lemma_contains_push(rest, s.last(), x);
        }
        if in_rank(servers, s) {
            assert forall|i: int, j: int| 0 <= i < j < rest.len() implies !ranks_before(
                servers,
                #[trigger] rest[j],
                #[trigger] rest[i],
            ) by {
                assert(rest[i] == s[i] && rest[j] == s[j]);
            }
            let q = r.push(s.last());
            assert forall|i: int, j: int| 0 <= i < j < q.len() implies !ranks_before(
                servers,
                #[trigger] q[j],
                #[trigger] q[i],
            ) by {
                if j < r.len() {
                    assert(q[i] == r[i] && q[j] == r[j]);
                } else {
                    assert(r[i] == q[i]);
                    assert(r.contains(q[i]));
                    assert(rest.contains(q[i]) || q[i] == d);
                    if q[i] != d {
                        let k = choose|k: int| 0 <= k < rest.len() && rest[k] == q[i];
                        assert(s[k] == q[i]);
                        assert(!ranks_before(servers, s[s.len() - 1], s[k]));
                    } else {
                        lemma_rank_asymmetric(servers, d, s.last());
                    }
                }
            }
        }
    } else {
        assert forall|x: ScannedDeviceView| s.push(d).contains(x) <==> (s.contains(x) || x == d) by {
            lemma_contains_push(s, d, x);
        }
        if in_rank(servers, s) {
            let q = s.push(d);
            assert forall|i: int, j: int| 0 <= i < j < q.len() implies !ranks_before(
                servers,
                #[trigger] q[j],
                #[trigger] q[i],
            ) by {
                if j == s.len() {
                    if ranks_before(servers, d, s[i]) {
                        if i < s.len() - 1 {
                            assert(!ranks_before(servers, s[s.len() - 1], s[i]));
                            lemma_rank_total(servers, d, s[i], s.last());
                        }
                    }
                }
            }
        }
    }
}

proof fn lemma_rank_asymmetric(servers: Seq<ServerProfileView>, a: ScannedDeviceView, b: ScannedDeviceView)
    requires
        ranks_before(servers, a, b),
    ensures
        !ranks_before(servers, b, a),
{
    if is_paired(servers, a) == is_paired(servers, b) {
        if a.name == b.name {
            text::lemma_lex_irreflexive(a.name);
        } else {
            text::lemma_lex_total(a.name, b.name);
        }
    }
}

proof fn lemma_rank_total(
    servers: Seq<ServerProfileView>,
    d: ScannedDeviceView,
    a: ScannedDeviceView,
    b: ScannedDeviceView,
)
    requires
        ranks_before(servers, d, a),
        !ranks_before(servers, b, a),
    ensures
        ranks_before(servers, d, b),
{
    let pd = is_paired(servers, d);
    let pa = is_paired(servers, a);
    let pb = is_paired(servers, b);
    if pd == pb && pa == pb {
        if a.name != b.name {
            text::lemma_lex_total(a.name, b.name);
            text::lemma_lex_transitive(d.name, a.name, b.name);
        }
    }
}

/// No device stands behind one that it comes before.
pub open spec fn in_rank(servers: Seq<ServerProfileView>, s: Seq<ScannedDeviceView>) -> bool {
    forall|i: int, j: int|
        0 <= i < j < s.len() ==> !ranks_before(servers, #[trigger] s[j], #[trigger] s[i])
}

/// Ordering neither loses nor adds a device, and paired devices stand before
/// the others.
pub proof fn law_paired_devices_come_first(servers: Seq<ServerProfileView>, s: Seq<ScannedDeviceView>)
    ensures
        ranked(servers, s).to_multiset() == s.to_multiset(),
        in_rank(servers, ranked(servers, s)),
        forall|i: int, j: int|
            0 <= i < j < ranked(servers, s).len() && is_paired(
                servers,
                #[trigger] ranked(servers, s)[j],
            ) ==> is_paired(servers, #[trigger] ranked(servers, s)[i]),
    decreases s.len(),
{
    broadcast use vstd::seq_lib::group_to_multiset_ensures;
    if s.len() > 0 {
        law_paired_devices_come_first(servers, s.drop_last());
        lemma_rank_insert(servers, ranked(servers, s.drop_last()), s.last());
        assert(s.drop_last().push(s.last()) =~= s);
        let r = ranked(servers, s);
        assert forall|i: int, j: int| 0 <= i < j < r.len() && is_paired(servers, #[trigger] r[j]) implies is_paired(
            servers,
            #[trigger] r[i],
        ) by {
            assert(!ranks_before(servers, r[j], r[i]));
        }
    }
}

/// What a search for servers found.
#[derive(Debug, PartialEq, Eq)]
pub struct ScanResult {
    pub devices: Vec<ScannedDevice>,
    /// Whether the search ended before all candidates were tried.
    pub truncated: bool,
    /// Whether the networks could be scanned.
    pub scanned_subnet: bool,
}

/// What a search for servers found, in order.
pub fn scan_result(servers: &Vec<ServerProfile>, out: ScanOutcome, allow_subnet: Option<bool>) -> (r: ScanResult)
    ensures
        text::views(r.devices@) == ranked(text::views(servers@), text::views(out.devices@)),
        r.truncated == out.truncated,
        r.scanned_subnet == match allow_subnet {
            Some(b) => b,
            None => true,
        },
{
    let devices = rank_devices(servers, out.devices);
    let scanned: bool = match allow_subnet {
        Some(b) => b,
        None => true,
    };
    ScanResult { devices, truncated: out.truncated, scanned_subnet: scanned }
}

// ---------- what is found ----------

/// A server that announces itself is found at the address that it gives, or at
/// its host name without the dots behind it, under its name; one that was found
/// already is not added again, and none is lost.
pub proof fn law_announced_servers_are_found(
    found: Seq<DiscoveredView>,
    address: Option<Seq<char>>,
    hostname: Seq<char>,
    port: u16,
    fullname: Seq<char>,
    host: Seq<char>,
    k: nat,
)
    requires
        host.len() > 0,
        host.last() != '.',
        hostname == host + Seq::new(k, |i: int| '.'),
    ensures
        ({
            let at = match address {
                Some(a) => a,
                None => host,
            };
            let url = "http://"@ + at + ":"@ + text::decimal(port as nat);
            let after = found_after(found, address, hostname, port, fullname);
            let known = exists|i: int| 0 <= i < found.len() && (#[trigger] found[i]).url == url;
            &&& at.len() > 0 && !known ==> after.len() == found.len() + 1 && after.drop_last() == found && after.last().url
                == url && after.last().name == sync_server::instance_name(fullname)
            &&& at.len() == 0 || known ==> after == found
        }),
{
    lemma_dots_go(host, k);
    let after = found_after(found, address, hostname, port, fullname);
    if after.len() > found.len() {
        assert(after.drop_last() =~= found);
    }
}

proof fn lemma_dots_go(host: Seq<char>, k: nat)
    requires
        host.len() > 0,
        host.last() != '.',
    ensures
        text::trim_end_char(host + Seq::new(k, |i: int| '.'), '.') == host,
    decreases k,
{
    let s = host + Seq::new(k, |i: int| '.');
    if k > 0 {
        assert(s.last() == '.');
        assert(s.drop_last() =~= host + Seq::new((k - 1) as nat, |i: int| '.'));
        lemma_dots_go(host, (k - 1) as nat);
    } else {
        assert(s =~= host);
    }
}

/// The addresses that are tried first are those that were announced and those of
/// the servers that are known, each known one once.
pub proof fn law_known_addresses_are_tried(
    announced: Seq<DiscoveredView>,
    servers: Seq<ServerProfileView>,
    n: int,
    u: Seq<char>,
)
    requires
        0 <= n <= servers.len(),
    ensures
        known_urls(announced, servers, n).contains(u) <==> (exists|i: int|
            0 <= i < announced.len() && (#[trigger] announced[i]).url == u) || (exists|i: int|
            0 <= i < n && (#[trigger] servers[i]).url == u),
        (forall|i: int, j: int|
            0 <= i < j < announced.len() ==> (#[trigger] announced[i]).url != (#[trigger] announced[j]).url)
            ==> known_urls(announced, servers, n).no_duplicates(),
    decreases n,
{
    let f = |d: DiscoveredView| d.url;
    let first = announced.map_values(f);
    if n > 0 {
        law_known_addresses_are_tried(announced, servers, n - 1, u);
        law_known_addresses_are_tried(announced, servers, n - 1, servers[n - 1].url);
        let before = known_urls(announced, servers, n - 1);
        let x = servers[n - 1].url;
        let after = before.push(x);
        assert(servers[n - 1].url == x);
        assert(after[before.len() as int] == x);
        if before.contains(u) {
            let k = choose|k: int| 0 <= k < before.len() && before[k] == u;
            assert(after[k] == u);
        }
        if after.contains(u) {
            let k = choose|k: int| 0 <= k < after.len() && after[k] == u;
            if k < before.len() {
                assert(before[k] == u);
            }
        }
    } else {
        if exists|i: int| 0 <= i < announced.len() && (#[trigger] announced[i]).url == u {
            let i = choose|i: int| 0 <= i < announced.len() && (#[trigger] announced[i]).url == u;
            assert(first[i] == u);
        }
        if first.contains(u) {
            let i = choose|i: int| 0 <= i < first.len() && first[i] == u;
            assert(announced[i].url == u);
        }
    }
}

/// A scan asks the known addresses, the neighbours and the networks it is given;
/// the networks only with leave, which is given unless it is withheld. It tries
/// the port of the first known server.
pub proof fn law_scans_are_planned_as_given(
    announced: &Vec<Discovered>,
    servers: &Vec<ServerProfile>,
    neighbors: Vec<Ipv4Addr>,
    subnets: Vec<NetSegment>,
    allow: Option<bool>,
    r: ScanPlan,
)
    requires
        call_ensures(scan_plan, (announced, servers, neighbors, subnets, allow), r),
    ensures
        r.neighbors == neighbors,
        r.subnets == subnets,
        r.allow_subnet <==> allow != Some(false),
        servers@.len() == 0 ==> r.known_port is None,
        servers@.len() > 0 ==> sync_client::port_int(r.known_port) == sync_client::port_of(servers@[0]@.url),
        forall|i: int|
            0 <= i < announced@.len() ==> text::views(r.known@).contains((#[trigger] announced@[i])@.url),
        forall|i: int| 0 <= i < servers@.len() ==> text::views(r.known@).contains((#[trigger] servers@[i])@.url),
{
    let a = text::views(announced@);
    let s = text::views(servers@);
    assert forall|i: int| 0 <= i < announced@.len() implies text::views(r.known@).contains(
        (#[trigger] announced@[i])@.url,
    ) by {
        law_known_addresses_are_tried(a, s, s.len() as int, announced@[i]@.url);
        assert(a[i].url == announced@[i]@.url);
    }
    assert forall|i: int| 0 <= i < servers@.len() implies text::views(r.known@).contains(
        (#[trigger] servers@[i])@.url,
    ) by {
        law_known_addresses_are_tried(a, s, s.len() as int, servers@[i]@.url);
        assert(s[i].url == servers@[i]@.url);
    }
}

/// What a scan found is shown whole: devices that this side knows first, and each
/// sort by name.
pub proof fn law_found_devices_are_shown_in_order(
    servers: &Vec<ServerProfile>,
    out: ScanOutcome,
    allow: Option<bool>,
    r: ScanResult,
    i: int,
    j: int,
)
    requires
        call_ensures(scan_result, (servers, out, allow), r),
    ensures
        text::views(r.devices@).to_multiset() == text::views(out.devices@).to_multiset(),
        r.truncated == out.truncated,
        r.scanned_subnet <==> allow != Some(false),
        0 <= i < j < r.devices@.len() ==> {
            let known = |d: ScannedDeviceView|
                sync_client::match_of(text::views(servers@), d.device_id, d.name) is Some;
            let a = r.devices@[i]@;
            let b = r.devices@[j]@;
            &&& known(b) ==> known(a)
            &&& known(a) == known(b) ==> !text::lex_lt(b.name, a.name)
        },
{
    let s = text::views(r.devices@);
    law_paired_devices_come_first(text::views(servers@), text::views(out.devices@));
    if 0 <= i < j < r.devices@.len() {
        assert(s[i] == r.devices@[i]@ && s[j] == r.devices@[j]@);
        assert(!ranks_before(text::views(servers@), s[j], s[i]));
    }
}

} // verus!
