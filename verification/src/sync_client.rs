//! The side that syncs with a server: the servers that it knows, finding and
//! pairing with them, and reading what they answer.
use vstd::prelude::*;

use crate::fs_ops;
use crate::fs_ops::{content_hash, path_join};
use crate::exchange::Fetched;
use crate::sync::{FileMeta, PullFile, PushResult, Tombstone};
use crate::text;
use crate::text::{
    concat, concat3, concat4, from_range, has_prefix, parse_unsigned, rfind_char, same, split_char,
    strip_end_char, strip_prefix, to_chars, trim,
};

verus! {

// ---------- known servers ----------

/// A server that this side is paired with.
#[derive(Debug, PartialEq, Eq)]
pub struct ServerProfile {
    /// The identity of the device where it is known; it names the baseline.
    pub id: String,
    pub name: String,
    pub url: String,
    pub token: String,
    /// When a round last went well, in milliseconds.
    pub last_success_at: Option<i64>,
    /// The identity that the server tells; empty where it tells none.
    pub device_id: String,
    /// The port that it last had.
    pub port: Option<u16>,
}

pub struct ServerProfileView {
    pub id: Seq<char>,
    pub name: Seq<char>,
    pub url: Seq<char>,
    pub token: Seq<char>,
    pub last_success_at: Option<i64>,
    pub device_id: Seq<char>,
    pub port: Option<u16>,
}

impl View for ServerProfile {
    type V = ServerProfileView;

    open spec fn view(&self) -> ServerProfileView {
        ServerProfileView {
            id: self.id@,
            name: self.name@,
            url: self.url@,
            token: self.token@,
            last_success_at: self.last_success_at,
            device_id: self.device_id@,
            port: self.port,
        }
    }
}

impl Clone for ServerProfile {
    fn clone(&self) -> (r: Self)
        ensures
            r == *self,
    {
        ServerProfile {
            id: self.id.clone(),
            name: self.name.clone(),
            url: self.url.clone(),
            token: self.token.clone(),
            last_success_at: self.last_success_at,
            device_id: self.device_id.clone(),
            port: self.port,
        }
    }
}

impl Default for ServerProfile {
    fn default() -> (r: Self)
        ensures
            r@ == (ServerProfileView {
                id: Seq::empty(),
                name: Seq::empty(),
                url: Seq::empty(),
                token: Seq::empty(),
                last_success_at: None,
                device_id: Seq::empty(),
                port: None,
            }),
    {
        let r = ServerProfile {
            id: String::new(),
            name: String::new(),
            url: String::new(),
            token: String::new(),
            last_success_at: None,
            device_id: String::new(),
            port: None,
        };
        assert(r@.id =~= Seq::<char>::empty());
        r
    }
}

/// A profile that may be missing, by its view.
pub open spec fn profile_view(p: Option<&ServerProfile>) -> Option<ServerProfileView> {
    match p {
        Some(s) => Some(s@),
        None => None,
    }
}

/// The first profile of which `f` holds.
pub open spec fn first_where(s: Seq<ServerProfileView>, f: spec_fn(ServerProfileView) -> bool) -> Option<
    ServerProfileView,
>
    decreases s.len(),
{
    if s.len() == 0 {
        None
    } else if f(s[0]) {
        Some(s[0])
    } else {
        first_where(s.drop_first(), f)
    }
}

/// The profile for a device: by its identity, else by its name among the
/// profiles that have no identity.
pub open spec fn match_of(
    servers: Seq<ServerProfileView>,
    device_id: Seq<char>,
    name: Seq<char>,
) -> Option<ServerProfileView> {
    let same_device = first_where(servers, has_device(device_id));
    if device_id.len() > 0 && same_device is Some {
        same_device
    } else if name.len() == 0 {
        None
    } else {
        first_where(servers, nameless_device(name))
    }
}

/// Whether a profile is of the device with the identity.
pub open spec fn has_device(device_id: Seq<char>) -> spec_fn(ServerProfileView) -> bool {
    |p: ServerProfileView| p.device_id == device_id
}

/// Whether a profile has no identity, and the name.
pub open spec fn nameless_device(name: Seq<char>) -> spec_fn(ServerProfileView) -> bool {
    |p: ServerProfileView| p.device_id.len() == 0 && p.name == name
}

/// The profile for a device. Its identity counts first, so that another address
/// is still the same device; the name counts only for profiles without an
/// identity.
pub fn match_by_identity<'a>(servers: &'a [ServerProfile], device_id: &str, name: &str) -> (r: Option<
    &'a ServerProfile,
>)
    ensures
        profile_view(r) == match_of(text::views(servers@), device_id@, name@),
{
    let ghost all = text::views(servers@);
    assert(all.skip(0) =~= all);
    if !device_id.is_empty() {
        let mut i: usize = 0;
        while i < servers.len()
            invariant
                i <= servers.len(),
                all == text::views(servers@),
                device_id@.len() > 0,
                first_where(all, has_device(device_id@)) == first_where(
                    all.skip(i as int),
                    has_device(device_id@),
                ),
            decreases servers.len() - i,
        {
            assert(all.skip(i as int)[0] == servers@[i as int]@);
            assert(all.skip(i as int).drop_first() =~= all.skip(i + 1));
            if same(servers[i].device_id.as_str(), device_id) {
                return Some(&servers[i]);
            }
            i = i + 1;
        }
    }
    if name.is_empty() {
        return None;
    }
    let mut j: usize = 0;
    while j < servers.len()
        invariant
            j <= servers.len(),
            all == text::views(servers@),
            name@.len() > 0,
            device_id@.len() == 0 || first_where(all, has_device(device_id@)) is None,
            first_where(all, nameless_device(name@)) == first_where(
                all.skip(j as int),
                nameless_device(name@),
            ),
        decreases servers.len() - j,
    {
        assert(all.skip(j as int)[0] == servers@[j as int]@);
        assert(all.skip(j as int).drop_first() =~= all.skip(j + 1));
        if servers[j].device_id.as_str().is_empty() && same(servers[j].name.as_str(), name) {
            return Some(&servers[j]);
        }
        j = j + 1;
    }
    None
}

/// The id of a profile: the identity of the device, or, where it tells none,
/// what the hash of address and token begins with.
pub open spec fn id_of(device_id: Seq<char>, hash: Seq<char>) -> Seq<char> {
    if device_id.len() > 0 {
        "d"@ + device_id
    } else {
        "s"@ + hash.take(8)
    }
}

/// The hash of address and token.
pub open spec fn address_hash(url: Seq<char>, token: Seq<char>) -> Seq<char> {
    fs_ops::hash_text(vstd::utf8::encode_utf8(url + token))
}

/// The id of a profile, given the hash of address and token.
pub fn id_with_hash(device_id: &str, hash: &str) -> (r: String)
    requires
        hash@.len() >= 8,
    ensures
        r@ == id_of(device_id@, hash@),
{
    if !device_id.is_empty() {
        return concat("d", device_id);
    }
    let v = to_chars(hash);
    let head = from_range(&v, 0, 8);
    assert(v@.subrange(0, 8) =~= v@.take(8));
    concat("s", head.as_str())
}

/// The id of a profile.
pub fn profile_id(device_id: &str, url: &str, token: &str) -> (r: String)
    ensures
        r@ == id_of(device_id@, address_hash(url@, token@)),
{
    let material = concat(url, token);
    let hash = content_hash(material.as_str().as_bytes());
    id_with_hash(device_id, hash.as_str())
}

/// The id of a device that tells its identity depends on nothing else, so that
/// a new address or token keeps it; devices that differ have ids that differ.
pub proof fn law_id_follows_the_device(
    a: Seq<char>,
    b: Seq<char>,
    hash: Seq<char>,
    other_hash: Seq<char>,
)
    requires
        a.len() > 0,
        b.len() > 0,
    ensures
        id_of(a, hash) == id_of(a, other_hash),
        id_of(a, hash) == id_of(b, other_hash) ==> a == b,
{
    if id_of(a, hash) == id_of(b, other_hash) {
        assert(("d"@ + a).skip("d"@.len() as int) =~= a);
        assert(("d"@ + b).skip("d"@.len() as int) =~= b);
    }
}

/// A device with an identity and one without never have the same id.
pub proof fn law_ids_of_both_kinds_differ(device_id: Seq<char>, hash: Seq<char>, other_hash: Seq<char>)
    requires
        device_id.len() > 0,
    ensures
        id_of(device_id, hash) != id_of(Seq::empty(), other_hash),
{
    reveal_strlit("d");
    reveal_strlit("s");
    assert(id_of(device_id, hash)[0] == 'd');
    assert(id_of(Seq::empty(), other_hash)[0] == 's');
}

/// The file that holds what was known of a server after the last round.
pub open spec fn state_path(vault: Seq<char>, id: Seq<char>) -> Seq<char> {
    fs_ops::join(fs_ops::join(vault, fs_ops::META_DIR@), "sync-"@ + id + ".json"@)
}

/// The file that holds what was known of a server after the last round.
pub fn sync_state_path(vault: &str, id: &str) -> (r: String)
    ensures
        r@ == state_path(vault@, id@),
{
    let dir = path_join(vault, fs_ops::META_DIR);
    let name = concat3("sync-", id, ".json");
    path_join(dir.as_str(), name.as_str())
}

// ---------- addresses ----------

/// The address that a text stands for: without blanks around it and slashes at
/// its end, and only for plain HTTP.
pub open spec fn normalized(raw: Seq<char>) -> Result<Seq<char>, Seq<char>> {
    let url = text::trim_end_char(text::trimmed(raw), '/');
    if url.len() == 0 {
        Err("地址不能为空"@)
    } else if !text::starts_with(url, "http://"@) {
        Err("地址需以 http:// 开头（如 http://192.168.1.20:4180）"@)
    } else {
        Ok(url)
    }
}

/// A text or a failure, by their views.
pub open spec fn told(r: Result<String, String>) -> Result<Seq<char>, Seq<char>> {
    match r {
        Ok(s) => Ok(s@),
        Err(e) => Err(e@),
    }
}

/// The address that a text stands for.
pub fn normalize_url(raw: &str) -> (r: Result<String, String>)
    ensures
        told(r) == normalized(raw@),
{
    let t = trim(raw);
    let url = strip_end_char(t.as_str(), '/');
    if url.as_str().is_empty() {
        return Err("地址不能为空".to_owned());
    }
    if !has_prefix(url.as_str(), "http://") {
        return Err("地址需以 http:// 开头（如 http://192.168.1.20:4180）".to_owned());
    }
    Ok(url)
}

/// An accepted address is for plain HTTP and has no slash at its end.
pub proof fn law_addresses_are_plain(raw: Seq<char>)
    requires
        normalized(raw) is Ok,
    ensures
        text::starts_with(normalized(raw)->Ok_0, "http://"@),
        normalized(raw)->Ok_0.last() != '/',
{
    text::lemma_trim_end_char(text::trimmed(raw), '/');
}

/// Where a text has no blank before the slashes at its end, accepting its
/// address a second time changes nothing.
pub proof fn law_addresses_are_stable(raw: Seq<char>)
    requires
        normalized(raw) is Ok,
        !text::is_white(normalized(raw)->Ok_0.last()),
    ensures
        normalized(normalized(raw)->Ok_0) == normalized(raw),
{
    let t = text::trimmed(raw);
    let url = normalized(raw)->Ok_0;
    text::lemma_trimmed_ends(raw);
    text::lemma_trim_end_char(t, '/');
    assert(url[0] == t[0]);
    assert(text::trim_start(url) == url);
    assert(text::trimmed(url) == url);
    assert(text::trim_end_char(url, '/') == url);
}

/// The port of an address.
pub open spec fn port_of(url: Seq<char>) -> Option<int> {
    if !text::starts_with(url, "http://"@) {
        None
    } else {
        let rest = url.skip("http://"@.len() as int);
        let i = text::last_index(rest, ':');
        if i < 0 {
            None
        } else {
            text::unsigned(text::split(rest.skip(i + 1), '/')[0], u16::MAX as int)
        }
    }
}

/// A port, as a number.
pub open spec fn port_int(p: Option<u16>) -> Option<int> {
    match p {
        Some(n) => Some(n as int),
        None => None,
    }
}

/// The port of an address.
pub fn port_of_url(url: &str) -> (r: Option<u16>)
    ensures
        port_int(r) == port_of(url@),
{
    let rest: String = match strip_prefix(url, "http://") {
        Some(t) => t,
        None => {
            return None;
        },
    };
    let v = to_chars(rest.as_str());
    let i: usize = match rfind_char(&v, ':') {
        Some(i) => i,
        None => {
            return None;
        },
    };
    let port = from_range(&v, i + 1, v.len());
    assert(port@ =~= rest@.skip(i + 1));
    let segs = split_char(port.as_str(), '/');
    assert(text::views(segs@).len() == segs@.len());
    assert(text::split(port@, '/').len() > 0);
    assert(text::views(segs@)[0] == segs@[0]@);
    match parse_unsigned(segs[0].as_str(), 65535) {
        Some(n) => Some(n as u16),
        None => None,
    }
}

/// What shows a server that this side is paired with it.
pub fn auth_bearer(token: &str) -> (r: String)
    ensures
        r@ == "Bearer "@ + token@,
{
    concat("Bearer ", token)
}

// ---------- what servers answer ----------

/// What came of a request: no answer, or one with its status, the text that
/// shows the status, and its body.
pub enum Answer<T> {
    NoConnection(String),
    Status(u16, String, Result<T, String>),
}

/// Whether a status says that all went well.
pub open spec fn is_success(status: u16) -> bool {
    200 <= status <= 299
}

/// What an answer comes to. `what` names what was asked for, and `parse` what
/// to say of a body that cannot be read.
pub open spec fn reply_of<T>(what: Seq<char>, parse: Seq<char>, a: Answer<T>) -> Result<T, Seq<char>> {
    match a {
        Answer::NoConnection(e) => Err(what + "失败: "@ + e@),
        Answer::Status(status, shown, body) => if !is_success(status) {
            Err(what + "失败（HTTP "@ + shown@ + "）"@)
        } else {
            match body {
                Ok(t) => Ok(t),
                Err(e) => Err(parse + e@),
            }
        },
    }
}

/// A value or a failure, the failure by its view.
pub open spec fn reply_view<T>(r: Result<T, String>) -> Result<T, Seq<char>> {
    match r {
        Ok(t) => Ok(t),
        Err(e) => Err(e@),
    }
}

/// What an answer comes to.
fn answered<T>(what: &str, parse: &str, a: Answer<T>) -> (r: Result<T, String>)
    ensures
        reply_view(r) == reply_of(what@, parse@, a),
{
    match a {
        Answer::NoConnection(e) => Err(concat3(what, "失败: ", e.as_str())),
        Answer::Status(status, shown, body) => {
            if !(200 <= status && status <= 299) {
                return Err(concat4(what, "失败（HTTP ", shown.as_str(), "）"));
            }
            match body {
                Ok(t) => Ok(t),
                Err(e) => Err(concat(parse, e.as_str())),
            }
        },
    }
}

/// The manifest that a server sent.
pub fn fetch_manifest(a: Answer<Vec<FileMeta>>) -> (r: Result<Vec<FileMeta>, String>)
    ensures
        reply_view(r) == reply_of("拉取清单"@, "清单解析失败: "@, a),
{
    answered("拉取清单", "清单解析失败: ", a)
}

/// The files that a server sent, and the paths that it refused.
pub fn pull_batch(a: Answer<(Vec<PullFile>, Vec<(String, String)>)>) -> (r: Fetched)
    ensures
        reply_view(r) == reply_of("拉取"@, ""@, a),
{
    answered("拉取", "", a)
}

/// What a server says of the files that were pushed to it.
pub fn push_batch(a: Answer<Vec<PushResult>>) -> (r: Result<Vec<PushResult>, String>)
    ensures
        reply_view(r) == reply_of("推送"@, "推送响应解析失败: "@, a),
{
    answered("推送", "推送响应解析失败: ", a)
}

/// What a server says of the paths that it was asked to delete.
pub fn delete_batch(a: Answer<Vec<PushResult>>) -> (r: Result<Vec<PushResult>, String>)
    ensures
        reply_view(r) == reply_of("删除传播"@, "删除传播响应解析失败: "@, a),
{
    answered("删除传播", "删除传播响应解析失败: ", a)
}

/// The tombstones that a server sent. A server that does not know of them has
/// none.
pub fn fetch_tombstones(a: Answer<Vec<Tombstone>>) -> (r: Result<Vec<Tombstone>, String>)
    ensures
        a matches Answer::Status(404, _, _) ==> r is Ok && r->Ok_0@.len() == 0,
        !(a matches Answer::Status(404, _, _)) ==> reply_view(r) == reply_of(
            "拉取 tombstone "@,
            "tombstone 解析失败: "@,
            a,
        ),
{
    if let Answer::Status(404, _, _) = &a {
        return Ok(Vec::new());
    }
    answered("拉取 tombstone ", "tombstone 解析失败: ", a)
}

/// What a pairing comes to: the token and the name of the server.
pub open spec fn pair_reply(a: Answer<(String, String)>) -> Result<(Seq<char>, Seq<char>), Seq<char>> {
    match a {
        Answer::NoConnection(e) => Err("连接失败: "@ + e@),
        Answer::Status(status, shown, body) => if status == 200 {
            match body {
                Ok(p) => Ok((p.0@, p.1@)),
                Err(e) => Err(e@),
            }
        } else if status == 403 {
            Err("配对码错误"@)
        } else {
            Err("配对失败（HTTP "@ + shown@ + "）"@)
        },
    }
}

/// A pair of texts or a failure, by their views.
pub open spec fn pair_view(r: Result<(String, String), String>) -> Result<
    (Seq<char>, Seq<char>),
    Seq<char>,
> {
    match r {
        Ok(p) => Ok((p.0@, p.1@)),
        Err(e) => Err(e@),
    }
}

/// What a pairing comes to.
pub fn paired(a: Answer<(String, String)>) -> (r: Result<(String, String), String>)
    ensures
        pair_view(r) == pair_reply(a),
{
    match a {
        Answer::NoConnection(e) => Err(concat("连接失败: ", e.as_str())),
        Answer::Status(status, shown, body) => {
            if status == 200 {
                body
            } else if status == 403 {
                Err("配对码错误".to_owned())
            } else {
                Err(concat3("配对失败（HTTP ", shown.as_str(), "）"))
            }
        },
    }
}

/// Whether `r` is what comes of a pairing request to `url` with the code.
pub open spec fn pair_outcome<P: Fn(&String, &String) -> Answer<(String, String)>>(
    post: P,
    url: Seq<char>,
    code: Seq<char>,
    r: Result<(Seq<char>, Seq<char>), Seq<char>>,
) -> bool {
    exists|u: String, c: String, a: Answer<(String, String)>|
        {
            &&& #[trigger] call_ensures(post, (&u, &c), a)
            &&& u@ == url + "/api/v1/pair"@
            &&& c@ == text::trimmed(code)
            &&& r == pair_reply(a)
        }
}

/// Trades a pairing code for a token; `post` makes the request, and is not
/// called for an address that is refused.
pub fn pair<P: Fn(&String, &String) -> Answer<(String, String)>>(base_url: &str, code: &str, post: P) -> (r: Result<
    (String, String),
    String,
>)
    requires
        forall|u: &String, c: &String|
            {
                &&& normalized(base_url@) is Ok
                &&& u@ == normalized(base_url@)->Ok_0 + "/api/v1/pair"@
                &&& c@ == text::trimmed(code@)
            } ==> #[trigger] call_requires(post, (u, c)),
    ensures
        match normalized(base_url@) {
            Err(e) => pair_view(r) == Err::<(Seq<char>, Seq<char>), Seq<char>>(e),
            Ok(url) => pair_outcome(post, url, code@, pair_view(r)),
        },
{
    let url: String = match normalize_url(base_url) {
        Ok(u) => u,
        Err(e) => {
            return Err(e);
        },
    };
    let target = concat(url.as_str(), "/api/v1/pair");
    let c = trim(code);
    let a = post(&target, &c);
    assert(call_ensures(post, (&target, &c), a));
    paired(a)
}

/// What a server tells of itself.
#[derive(Debug, PartialEq, Eq)]
pub struct InfoResponse {
    pub app: String,
    pub name: String,
    /// Empty where the server tells no identity.
    pub device_id: String,
    pub notes: u64,
    pub assets: u64,
}

pub struct InfoResponseView {
    pub app: Seq<char>,
    pub name: Seq<char>,
    pub device_id: Seq<char>,
    pub notes: u64,
    pub assets: u64,
}

impl View for InfoResponse {
    type V = InfoResponseView;

    open spec fn view(&self) -> InfoResponseView {
        InfoResponseView {
            app: self.app@,
            name: self.name@,
            device_id: self.device_id@,
            notes: self.notes,
            assets: self.assets,
        }
    }
}

impl Clone for InfoResponse {
    fn clone(&self) -> (r: Self)
        ensures
            r == *self,
    {
        InfoResponse {
            app: self.app.clone(),
            name: self.name.clone(),
            device_id: self.device_id.clone(),
            notes: self.notes,
            assets: self.assets,
        }
    }
}

impl Default for InfoResponse {
    fn default() -> (r: Self)
        ensures
            r@ == (InfoResponseView {
                app: Seq::empty(),
                name: Seq::empty(),
                device_id: Seq::empty(),
                notes: 0,
                assets: 0,
            }),
    {
        let r = InfoResponse {
            app: String::new(),
            name: String::new(),
            device_id: String::new(),
            notes: 0,
            assets: 0,
        };
        assert(r@.app =~= Seq::<char>::empty());
        r
    }
}

/// What a server tells of itself, or why it is none of ours.
pub open spec fn info_reply(a: Answer<InfoResponse>) -> Result<InfoResponse, Seq<char>> {
    match a {
        Answer::NoConnection(e) => Err("连接失败: "@ + e@),
        Answer::Status(status, shown, body) => if !is_success(status) {
            Err("服务返回 "@ + shown@)
        } else {
            match body {
                Err(e) => Err("响应解析失败: "@ + e@),
                Ok(info) => if info@.app != "lanmark"@ {
                    Err("不是 Lanmark 服务器"@)
                } else {
                    Ok(info)
                },
            }
        },
    }
}

/// What a server tells of itself, or why it is none of ours.
pub fn info_told(a: Answer<InfoResponse>) -> (r: Result<InfoResponse, String>)
    ensures
        reply_view(r) == info_reply(a),
{
    match a {
        Answer::NoConnection(e) => Err(concat("连接失败: ", e.as_str())),
        Answer::Status(status, shown, body) => {
            if !(200 <= status && status <= 299) {
                return Err(concat("服务返回 ", shown.as_str()));
            }
            match body {
                Err(e) => Err(concat("响应解析失败: ", e.as_str())),
                Ok(info) => {
                    if !same(info.app.as_str(), "lanmark") {
                        Err("不是 Lanmark 服务器".to_owned())
                    } else {
                        Ok(info)
                    }
                },
            }
        },
    }
}

/// Where the server at `url` is asked about itself.
pub open spec fn info_url(url: Seq<char>) -> Seq<char> {
    text::trim_end_char(url, '/') + "/api/v1/info"@
}

/// Whether `r` is what comes of asking the server at `url` about itself.
pub open spec fn info_outcome<G: Fn(&String) -> Answer<InfoResponse>>(
    get: G,
    url: Seq<char>,
    r: Result<InfoResponse, Seq<char>>,
) -> bool {
    exists|u: String, a: Answer<InfoResponse>|
        {
            &&& #[trigger] call_ensures(get, (&u,), a)
            &&& u@ == info_url(url)
            &&& r == info_reply(a)
        }
}

/// Asks a server about itself; `get` makes the request.
pub fn fetch_info<G: Fn(&String) -> Answer<InfoResponse>>(url: &str, get: G) -> (r: Result<
    InfoResponse,
    String,
>)
    requires
        forall|u: &String| u@ == info_url(url@) ==> #[trigger] call_requires(get, (u,)),
    ensures
        info_outcome(get, url@, reply_view(r)),
{
    let base = strip_end_char(url, '/');
    let target = concat(base.as_str(), "/api/v1/info");
    let a = get(&target);
    assert(call_ensures(get, (&target,), a));
    info_told(a)
}

/// Whether a server can be reached, and what it told.
#[derive(Debug, PartialEq, Eq)]
pub struct ProbeResult {
    pub online: bool,
    pub name: String,
    pub notes: u64,
    pub assets: u64,
}

pub struct ProbeResultView {
    pub online: bool,
    pub name: Seq<char>,
    pub notes: u64,
    pub assets: u64,
}

impl View for ProbeResult {
    type V = ProbeResultView;

    open spec fn view(&self) -> ProbeResultView {
        ProbeResultView {
            online: self.online,
            name: self.name@,
            notes: self.notes,
            assets: self.assets,
        }
    }
}

/// What a probe says: a server that cannot be reached keeps the name by which
/// it is known.
pub open spec fn probe_of(info: Result<InfoResponse, Seq<char>>, name: Seq<char>) -> ProbeResultView {
    match info {
        Ok(i) => ProbeResultView { online: true, name: i@.name, notes: i.notes, assets: i.assets },
        Err(_) => ProbeResultView { online: false, name, notes: 0, assets: 0 },
    }
}

/// What a probe says.
pub fn probe_result(info: Result<InfoResponse, String>, name: &str) -> (r: ProbeResult)
    ensures
        r@ == probe_of(reply_view(info), name@),
{
    match info {
        Ok(i) => ProbeResult { online: true, name: i.name, notes: i.notes, assets: i.assets },
        Err(_) => ProbeResult { online: false, name: name.to_owned(), notes: 0, assets: 0 },
    }
}

/// Whether `r` is what a probe of the server at `url` says.
pub open spec fn probe_outcome<G: Fn(&String) -> Answer<InfoResponse>>(
    get: G,
    url: Seq<char>,
    name: Seq<char>,
    r: ProbeResultView,
) -> bool {
    exists|info: Result<InfoResponse, Seq<char>>| #[trigger]
        info_outcome(get, url, info) && r == probe_of(info, name)
}

/// Probes a server. It never fails: a server that does not answer is offline.
pub fn probe_server<G: Fn(&String) -> Answer<InfoResponse>>(url: &str, name: &str, get: G) -> (r: ProbeResult)
    requires
        forall|u: &String| u@ == info_url(url@) ==> #[trigger] call_requires(get, (u,)),
    ensures
        probe_outcome(get, url@, name@, r@),
{
    let info = fetch_info(url, get);
    probe_result(info, name)
}

// ---------- the list of servers ----------

/// The profile of a server that was just paired with.
pub open spec fn profile_of(
    url: Seq<char>,
    token: Seq<char>,
    name: Seq<char>,
    device_id: Seq<char>,
    p: ServerProfileView,
) -> bool {
    &&& p.id == id_of(device_id, address_hash(url, token))
    &&& p.name == name
    &&& p.url == url
    &&& p.token == token
    &&& p.last_success_at is None
    &&& p.device_id == device_id
    &&& port_int(p.port) == port_of(url)
}

/// The profile of a server that was just paired with.
pub fn new_profile(url: &str, token: &str, name: &str, device_id: &str) -> (r: ServerProfile)
    ensures
        profile_of(url@, token@, name@, device_id@, r@),
{
    ServerProfile {
        id: profile_id(device_id, url, token),
        name: name.to_owned(),
        url: url.to_owned(),
        token: token.to_owned(),
        last_success_at: None,
        device_id: device_id.to_owned(),
        port: port_of_url(url),
    }
}

/// Whether a profile is of another server than the given one: neither address
/// nor device are the same.
pub open spec fn is_other(profile: ServerProfileView) -> spec_fn(ServerProfileView) -> bool {
    |s: ServerProfileView|
        s.url != profile.url && (profile.device_id.len() == 0 || s.device_id != profile.device_id)
}

/// The list with a profile at its end, in place of those for the same server.
pub open spec fn with_profile(servers: Seq<ServerProfileView>, profile: ServerProfileView) -> Seq<
    ServerProfileView,
> {
    servers.filter(is_other(profile)).push(profile)
}

/// Puts a profile into the list, in place of those for the same server.
pub fn keep_profile(servers: &mut Vec<ServerProfile>, profile: ServerProfile)
    ensures
        text::views(final(servers)@) == with_profile(text::views(old(servers)@), profile@),
{
    broadcast use text::lemma_views_push;
    let ghost all = text::views(servers@);
    let mut out: Vec<ServerProfile> = Vec::new();
    let mut i: usize = 0;
    proof {
        reveal(Seq::filter);
    }
    assert(text::views(out@) =~= all.take(0).filter(is_other(profile@)));
    while i < servers.len()
        invariant
            i <= servers.len(),
            all == text::views(servers@),
            text::views(out@) == all.take(i as int).filter(is_other(profile@)),
        decreases servers.len() - i,
    {
        broadcast use text::lemma_views_push;
        assert(all.take(i + 1) =~= all.take(i as int).push(servers@[i as int]@));
        proof {
            all.take(i as int).lemma_filter_push(servers@[i as int]@, is_other(profile@));
        }
        let s = &servers[i];
        if !same(s.url.as_str(), profile.url.as_str()) && (profile.device_id.as_str().is_empty() || !same(
            s.device_id.as_str(),
            profile.device_id.as_str(),
        )) {
            out.push(s.clone());
        }
        i = i + 1;
    }
    assert(all.take(all.len() as int) =~= all);
    out.push(profile);
    *servers = out;
}

/// Of each server the list keeps one profile: after a pairing, the new one is
/// the only one for its address, and for its device.
pub proof fn law_a_server_is_listed_once(servers: Seq<ServerProfileView>, profile: ServerProfileView, i: int)
    requires
        0 <= i < with_profile(servers, profile).len(),
    ensures
        with_profile(servers, profile).last() == profile,
        with_profile(servers, profile)[i].url == profile.url ==> i == with_profile(
            servers,
            profile,
        ).len() - 1,
        profile.device_id.len() > 0 && with_profile(servers, profile)[i].device_id
            == profile.device_id ==> i == with_profile(servers, profile).len() - 1,
{
    let kept = servers.filter(is_other(profile));
    if i < kept.len() {
        servers.lemma_filter_pred(is_other(profile), i);
        assert(with_profile(servers, profile)[i] == kept[i]);
    }
}

/// Whether a profile has another id.
pub open spec fn is_not(id: Seq<char>) -> spec_fn(ServerProfileView) -> bool {
    |s: ServerProfileView| s.id != id
}

/// Takes the profiles with the id out of the list.
pub fn server_remove(servers: &mut Vec<ServerProfile>, id: &str)
    ensures
        text::views(final(servers)@) == text::views(old(servers)@).filter(is_not(id@)),
{
    let ghost all = text::views(servers@);
    let mut out: Vec<ServerProfile> = Vec::new();
    let mut i: usize = 0;
    proof {
        reveal(Seq::filter);
    }
    assert(text::views(out@) =~= all.take(0).filter(is_not(id@)));
    while i < servers.len()
        invariant
            i <= servers.len(),
            all == text::views(servers@),
            text::views(out@) == all.take(i as int).filter(is_not(id@)),
        decreases servers.len() - i,
    {
        broadcast use text::lemma_views_push;
        assert(all.take(i + 1) =~= all.take(i as int).push(servers@[i as int]@));
        proof {
            all.take(i as int).lemma_filter_push(servers@[i as int]@, is_not(id@));
        }
        if !same(servers[i].id.as_str(), id) {
            out.push(servers[i].clone());
        }
        i = i + 1;
    }
    assert(all.take(all.len() as int) =~= all);
    *servers = out;
}

/// The position of the first profile with the id, or the length of the list.
pub open spec fn id_index(servers: Seq<ServerProfileView>, id: Seq<char>) -> int
    decreases servers.len(),
{
    if servers.len() == 0 || servers[0].id == id {
        0
    } else {
        1 + id_index(servers.drop_first(), id)
    }
}

/// The position of the first profile with the id, or the length of the list.
fn find_id(servers: &Vec<ServerProfile>, id: &str) -> (r: usize)
    ensures
        r == id_index(text::views(servers@), id@),
        r <= servers@.len(),
        r < servers@.len() ==> servers@[r as int]@.id == id@,
{
    let ghost all = text::views(servers@);
    let mut i: usize = 0;
    assert(all.skip(0) =~= all);
    while i < servers.len()
        invariant
            i <= servers.len(),
            all == text::views(servers@),
            id_index(all, id@) == i + id_index(all.skip(i as int), id@),
        decreases servers.len() - i,
    {
        assert(all.skip(i as int)[0] == servers@[i as int]@);
        assert(all.skip(i as int).drop_first() =~= all.skip(i + 1));
        if same(servers[i].id.as_str(), id) {
            return i;
        }
        i = i + 1;
    }
    i
}

/// A profile or a failure, by their views.
pub open spec fn server_view(r: Result<ServerProfile, String>) -> Result<ServerProfileView, Seq<char>> {
    match r {
        Ok(p) => Ok(p@),
        Err(e) => Err(e@),
    }
}

/// The first profile with the id, or that there is none.
pub open spec fn server_with(servers: Seq<ServerProfileView>, id: Seq<char>) -> Result<
    ServerProfileView,
    Seq<char>,
> {
    let k = id_index(servers, id);
    if 0 <= k < servers.len() {
        Ok(servers[k])
    } else {
        Err("未找到服务器: "@ + id)
    }
}

/// The first profile with the id.
pub fn find_server(servers: &Vec<ServerProfile>, id: &str) -> (r: Result<ServerProfile, String>)
    ensures
        server_view(r) == server_with(text::views(servers@), id@),
{
    let k = find_id(servers, id);
    if k < servers.len() {
        assert(text::views(servers@)[k as int] == servers@[k as int]@);
        Ok(servers[k].clone())
    } else {
        Err(concat("未找到服务器: ", id))
    }
}

/// The list after the server with the id got another address.
pub open spec fn with_url(servers: Seq<ServerProfileView>, id: Seq<char>, url: Seq<char>) -> Seq<
    ServerProfileView,
> {
    let k = id_index(servers, id);
    if 0 <= k < servers.len() {
        servers.update(k, ServerProfileView { url, ..servers[k] })
    } else {
        servers
    }
}

/// Gives the server with the id another address, which keeps its id and so what
/// was known of it. An address that is not accepted, or an unknown id, changes
/// nothing.
pub fn server_set_url(servers: &mut Vec<ServerProfile>, id: &str, url: &str) -> (r: Result<
    ServerProfile,
    String,
>)
    ensures
        match normalized(url@) {
            Err(e) => {
                &&& server_view(r) == Err::<ServerProfileView, Seq<char>>(e)
                &&& text::views(final(servers)@) == text::views(old(servers)@)
            },
            Ok(u) => {
                &&& text::views(final(servers)@) == with_url(text::views(old(servers)@), id@, u)
                &&& server_view(r) == server_with(with_url(text::views(old(servers)@), id@, u), id@)
            },
        },
{
    let u: String = match normalize_url(url) {
        Ok(u) => u,
        Err(e) => {
            return Err(e);
        },
    };
    let ghost before = text::views(servers@);
    let k = find_id(servers, id);
    if k >= servers.len() {
        return Err(concat("未找到服务器: ", id));
    }
    assert(before[k as int] == servers@[k as int]@);
    let mut p = servers[k].clone();
    p.url = u;
    let r = p.clone();
    servers.set(k, p);
    assert(text::views(servers@) =~= with_url(before, id@, r@.url));
    proof {
        lemma_same_ids(before, text::views(servers@), id@);
    }
    Ok(r)
}

proof fn lemma_same_ids(a: Seq<ServerProfileView>, b: Seq<ServerProfileView>, id: Seq<char>)
    requires
        a.len() == b.len(),
        forall|i: int| 0 <= i < a.len() ==> #[trigger] a[i].id == b[i].id,
    ensures
        id_index(a, id) == id_index(b, id),
    decreases a.len(),
{
    if a.len() > 0 {
        assert(a[0].id == b[0].id);
        assert forall|i: int| 0 <= i < a.drop_first().len() implies #[trigger] a.drop_first()[i].id
            == b.drop_first()[i].id by {
            assert(a[i + 1].id == b[i + 1].id);
        }
        lemma_same_ids(a.drop_first(), b.drop_first(), id);
    }
}

/// The list after a round with the server with the id went well.
pub open spec fn with_success(servers: Seq<ServerProfileView>, id: Seq<char>, now_ms: i64) -> Seq<
    ServerProfileView,
> {
    let k = id_index(servers, id);
    if 0 <= k < servers.len() {
        servers.update(k, ServerProfileView { last_success_at: Some(now_ms), ..servers[k] })
    } else {
        servers
    }
}

/// Takes note that a round with the server with the id went well, and returns
/// whether there is such a server.
pub fn note_success(servers: &mut Vec<ServerProfile>, id: &str, now_ms: i64) -> (r: bool)
    ensures
        text::views(final(servers)@) == with_success(text::views(old(servers)@), id@, now_ms),
        r == (id_index(text::views(old(servers)@), id@) < old(servers)@.len()),
{
    let ghost before = text::views(servers@);
    let k = find_id(servers, id);
    if k >= servers.len() {
        return false;
    }
    assert(before[k as int] == servers@[k as int]@);
    let mut p = servers[k].clone();
    p.last_success_at = Some(now_ms);
    servers.set(k, p);
    assert(text::views(servers@) =~= with_success(before, id@, now_ms));
    true
}

// ---------- binding profiles to devices ----------

/// Whether `r` says if what was known of a server under its old id, in the file
/// `from`, is there under the new one, in the file `to`, or there was nothing
/// to carry over. `seen` looks for a file, and `rename` says whether it could
/// rename one.
pub open spec fn carry_told<E: Fn(&String) -> bool, R: Fn(&String, &String) -> bool>(
    seen: E,
    rename: R,
    from: String,
    to: String,
    has_from: bool,
    has_to: bool,
    renamed: bool,
    r: bool,
) -> bool {
    &&& call_ensures(seen, (&from,), has_from)
    &&& has_from ==> call_ensures(seen, (&to,), has_to)
    &&& has_from && !has_to ==> call_ensures(rename, (&from, &to), renamed)
    &&& r == !(has_from && !has_to && !renamed)
}

/// Whether `r` says if what was known of a server could be carried over.
pub open spec fn carried<E: Fn(&String) -> bool, R: Fn(&String, &String) -> bool>(
    seen: E,
    rename: R,
    from: Seq<char>,
    to: Seq<char>,
    r: bool,
) -> bool {
    exists|f: String, t: String, has_from: bool, has_to: bool, renamed: bool|
        f@ == from && t@ == to && #[trigger] carry_told(
            seen,
            rename,
            f,
            t,
            has_from,
            has_to,
            renamed,
            r,
        )
}

/// Whether looking for the file gave `found`.
pub open spec fn saw<E: Fn(&String) -> bool>(seen: E, path: Seq<char>, found: bool) -> bool {
    exists|f: String| #[trigger] call_ensures(seen, (&f,), found) && f@ == path
}

/// The calls that carrying a file over may make: both places may be looked at,
/// and the file is renamed only where it is there and the new place is free.
pub open spec fn carry_leave<E: Fn(&String) -> bool, R: Fn(&String, &String) -> bool>(
    seen: E,
    rename: R,
    from: Seq<char>,
    to: Seq<char>,
) -> bool {
    &&& forall|a: &String| a@ == from || a@ == to ==> #[trigger] call_requires(seen, (a,))
    &&& forall|a: &String, b: &String|
        a@ == from && b@ == to && saw(seen, from, true) && saw(seen, to, false) ==> #[trigger] call_requires(
            rename,
            (a, b),
        )
}

/// Carries what was known of a server over to its new id: the file is renamed,
/// unless there is none, or one under the new id.
fn carry_state<E: Fn(&String) -> bool, R: Fn(&String, &String) -> bool>(
    vault: &str,
    old_id: &str,
    new_id: &str,
    seen: &E,
    rename: &R,
) -> (r: bool)
    requires
        carry_leave(*seen, *rename, state_path(vault@, old_id@), state_path(vault@, new_id@)),
    ensures
        carried(*seen, *rename, state_path(vault@, old_id@), state_path(vault@, new_id@), r),
{
    let from = sync_state_path(vault, old_id);
    let to = sync_state_path(vault, new_id);
    let has_from: bool = seen(&from);
    assert(call_ensures(*seen, (&from,), has_from));
    if !has_from {
        assert(carry_told(*seen, *rename, from, to, false, false, false, true));
        return true;
    }
    let has_to: bool = seen(&to);
    assert(call_ensures(*seen, (&to,), has_to));
    if has_to {
        assert(carry_told(*seen, *rename, from, to, true, true, false, true));
        return true;
    }
    let renamed: bool = rename(&from, &to);
    assert(carry_told(*seen, *rename, from, to, true, false, renamed, renamed));
    renamed
}

/// The profile once it is bound to the device that the server tells.
pub open spec fn bound(p: ServerProfileView, info: InfoResponseView, b: ServerProfileView) -> bool {
    &&& b.id == id_of(info.device_id, address_hash(p.url, p.token))
    &&& b.name == info.name
    &&& b.url == p.url
    &&& b.token == p.token
    &&& b.last_success_at == p.last_success_at
    &&& b.device_id == info.device_id
    &&& port_int(b.port) == port_of(p.url)
}

/// Binds a profile to the device that the server tells.
fn bind(p: &ServerProfile, info: &InfoResponse) -> (r: ServerProfile)
    ensures
        bound(p@, info@, r@),
{
    ServerProfile {
        id: profile_id(info.device_id.as_str(), p.url.as_str(), p.token.as_str()),
        name: info.name.clone(),
        url: p.url.clone(),
        token: p.token.clone(),
        last_success_at: p.last_success_at,
        device_id: info.device_id.clone(),
        port: port_of_url(p.url.as_str()),
    }
}

/// Whether `moved` says if the profile `p` was bound to its device, and `b` is
/// what it then is. A profile that has its device already is left alone without
/// a question; so is one whose server does not answer `info` or tells no
/// identity. Where the id changes, what was known under the old id has to be
/// carried over first; where that fails the profile is left alone too.
pub open spec fn rebound<E: Fn(&String) -> bool, R: Fn(&String, &String) -> bool>(
    vault: Seq<char>,
    seen: E,
    rename: R,
    p: ServerProfileView,
    info: Option<InfoResponseView>,
    kept: bool,
    b: ServerProfileView,
    moved: bool,
) -> bool {
    if p.device_id.len() > 0 || info is None || info->0.device_id.len() == 0 {
        !moved && b == p
    } else {
        let new_id = id_of(info->0.device_id, address_hash(p.url, p.token));
        &&& new_id != p.id ==> carried(
            seen,
            rename,
            state_path(vault, p.id),
            state_path(vault, new_id),
            kept,
        )
        &&& moved == (new_id == p.id || kept)
        &&& moved ==> bound(p, info->0, b)
        &&& !moved ==> b == p
    }
}

/// What the server of a profile tells, where it is asked and tells it.
pub open spec fn asked<A: Fn(&String) -> Result<InfoResponse, String>>(
    ask: A,
    p: ServerProfileView,
    info: Option<InfoResponseView>,
) -> bool {
    p.device_id.len() == 0 ==> exists|u: String, a: Result<InfoResponse, String>|
        {
            &&& #[trigger] call_ensures(ask, (&u,), a)
            &&& u@ == p.url
            &&& info == match a {
                Ok(i) => Some(i@),
                Err(_) => None,
            }
        }
}

/// The calls that binding a profile may make: none where it has its device. Else
/// its server may be asked, and what was known of it carried over only where
/// the server tells an identity that gives another id.
pub open spec fn bind_leave<
    A: Fn(&String) -> Result<InfoResponse, String>,
    E: Fn(&String) -> bool,
    R: Fn(&String, &String) -> bool,
>(vault: Seq<char>, ask: A, seen: E, rename: R, p: ServerProfileView) -> bool {
    p.device_id.len() == 0 ==> {
        &&& forall|u: &String| u@ == p.url ==> #[trigger] call_requires(ask, (u,))
        &&& forall|info: Option<InfoResponseView>|
            {
                &&& #[trigger] asked(ask, p, info)
                &&& info is Some
                &&& info->0.device_id.len() > 0
                &&& id_of(info->0.device_id, address_hash(p.url, p.token)) != p.id
            } ==> carry_leave(
                seen,
                rename,
                state_path(vault, p.id),
                state_path(vault, id_of(info->0.device_id, address_hash(p.url, p.token))),
            )
    }
}

/// Whether `moved` says if a profile was bound to its device, and `b` is what
/// it then is.
pub open spec fn migrated<
    A: Fn(&String) -> Result<InfoResponse, String>,
    E: Fn(&String) -> bool,
    R: Fn(&String, &String) -> bool,
>(
    vault: Seq<char>,
    ask: A,
    seen: E,
    rename: R,
    p: ServerProfileView,
    b: ServerProfileView,
    moved: bool,
) -> bool {
    exists|info: Option<InfoResponseView>, kept: bool| #[trigger]
        rebound(vault, seen, rename, p, info, kept, b, moved) && asked(ask, p, info)
}

/// Binds one profile to its device.
fn migrate_one<
    A: Fn(&String) -> Result<InfoResponse, String>,
    E: Fn(&String) -> bool,
    R: Fn(&String, &String) -> bool,
>(vault: &str, p: &ServerProfile, ask: &A, seen: &E, rename: &R) -> (r: Option<ServerProfile>)
    requires
        bind_leave(vault@, *ask, *seen, *rename, p@),
    ensures
        migrated(
            vault@,
            *ask,
            *seen,
            *rename,
            p@,
            match r {
                Some(b) => b@,
                None => p@,
            },
            r is Some,
        ),
{
    if !p.device_id.as_str().is_empty() {
        assert(rebound(vault@, *seen, *rename, p@, None, false, p@, false));
        return None;
    }
    let a = ask(&p.url);
    assert(call_ensures(*ask, (&p.url,), a));
    let info: InfoResponse = match a {
        Ok(i) => i,
        Err(_) => {
            assert(asked(*ask, p@, None));
            assert(rebound(vault@, *seen, *rename, p@, None, false, p@, false));
            return None;
        },
    };
    let ghost told = Some(info@);
    assert(asked(*ask, p@, told));
    if info.device_id.as_str().is_empty() {
        assert(rebound(vault@, *seen, *rename, p@, told, false, p@, false));
        return None;
    }
    let b = bind(p, &info);
    if !same(b.id.as_str(), p.id.as_str()) {
        let kept: bool = carry_state(vault, p.id.as_str(), b.id.as_str(), seen, rename);
        if !kept {
            assert(rebound(vault@, *seen, *rename, p@, told, kept, p@, false));
            return None;
        }
        assert(rebound(vault@, *seen, *rename, p@, told, kept, b@, true));
    } else {
        assert(rebound(vault@, *seen, *rename, p@, told, true, b@, true));
    }
    Some(b)
}

/// How many flags are set.
pub open spec fn set_flags(flags: Seq<bool>) -> nat
    decreases flags.len(),
{
    if flags.len() == 0 {
        0
    } else {
        set_flags(flags.drop_last()) + if flags.last() {
            1nat
        } else {
            0nat
        }
    }
}

/// Whether each profile is what it is after its migration, as the flags say.
pub open spec fn all_migrated<
    A: Fn(&String) -> Result<InfoResponse, String>,
    E: Fn(&String) -> bool,
    R: Fn(&String, &String) -> bool,
>(
    vault: Seq<char>,
    ask: A,
    seen: E,
    rename: R,
    before: Seq<ServerProfileView>,
    after: Seq<ServerProfileView>,
    flags: Seq<bool>,
) -> bool {
    &&& before.len() == after.len() == flags.len()
    &&& forall|i: int|
        0 <= i < before.len() ==> #[trigger] migrated(
            vault,
            ask,
            seen,
            rename,
            before[i],
            after[i],
            flags[i],
        )
}

/// Binds the profiles that have no identity to the devices that their servers
/// tell, and returns how many were bound. What was known of a server is carried
/// over to its new id, so that the next round takes nothing for a conflict that
/// was settled before.
pub fn migrate_profiles_to_device_id<
    A: Fn(&String) -> Result<InfoResponse, String>,
    E: Fn(&String) -> bool,
    R: Fn(&String, &String) -> bool,
>(vault: &str, servers: &mut Vec<ServerProfile>, ask: A, seen: E, rename: R) -> (r: usize)
    requires
        forall|i: int|
            0 <= i < old(servers)@.len() ==> bind_leave(
                vault@,
                ask,
                seen,
                rename,
                (#[trigger] old(servers)@[i])@,
            ),
    ensures
        exists|flags: Seq<bool>| #[trigger]
            all_migrated(
                vault@,
                ask,
                seen,
                rename,
                text::views(old(servers)@),
                text::views(final(servers)@),
                flags,
            ) && r == set_flags(flags),
{
    let ghost before = text::views(servers@);
    let ghost mut flags: Seq<bool> = Seq::empty();
    assert forall|j: int| 0 <= j < before.len() implies bind_leave(
        vault@,
        ask,
        seen,
        rename,
        #[trigger] before[j],
    ) by {
        assert(before[j] == servers@[j]@);
    }
    let mut n: usize = 0;
    let mut i: usize = 0;
    while i < servers.len()
        invariant
            i <= servers.len(),
            servers@.len() == before.len(),
            flags.len() == i,
            n == set_flags(flags),
            n <= i,
            forall|j: int|
                0 <= j < before.len() ==> bind_leave(vault@, ask, seen, rename, #[trigger] before[j]),
            forall|j: int|
                0 <= j < i ==> #[trigger] migrated(
                    vault@,
                    ask,
                    seen,
                    rename,
                    before[j],
                    text::views(servers@)[j],
                    flags[j],
                ),
            forall|j: int| i <= j < before.len() ==> before[j] == #[trigger] text::views(servers@)[j],
        decreases servers.len() - i,
    {
        let ghost was = text::views(servers@);
        assert(before[i as int] == was[i as int]);
        let step = migrate_one(vault, &servers[i], &ask, &seen, &rename);
        let ghost now = if step is Some {
            step->0@
        } else {
            before[i as int]
        };
        let ghost moved = step is Some;
        proof {
            assert(flags.push(moved).drop_last() =~= flags);
            flags = flags.push(moved);
        }
        if let Some(b) = step {
            servers.set(i, b);
            n = n + 1;
        }
        assert(text::views(servers@) =~= was.update(i as int, now));
        i = i + 1;
    }
    assert(all_migrated(vault@, ask, seen, rename, before, text::views(servers@), flags));
    n
}

/// A second migration leaves the profiles alone that the first has bound.
pub proof fn law_bound_profiles_stay<
    A: Fn(&String) -> Result<InfoResponse, String>,
    E: Fn(&String) -> bool,
    R: Fn(&String, &String) -> bool,
>(
    vault: Seq<char>,
    ask: A,
    seen: E,
    rename: R,
    p: ServerProfileView,
    b: ServerProfileView,
    c: ServerProfileView,
    again: bool,
)
    requires
        migrated(vault, ask, seen, rename, p, b, true),
        migrated(vault, ask, seen, rename, b, c, again),
    ensures
        !again,
        c == b,
        b.url == p.url,
        b.token == p.token,
{
}

/// Once every profile is bound to its device, a further migration, whatever it
/// would be told, binds none and changes nothing.
pub proof fn law_second_migration_binds_none<
    A: Fn(&String) -> Result<InfoResponse, String>,
    E: Fn(&String) -> bool,
    R: Fn(&String, &String) -> bool,
    A2: Fn(&String) -> Result<InfoResponse, String>,
    E2: Fn(&String) -> bool,
    R2: Fn(&String, &String) -> bool,
>(
    vault: Seq<char>,
    ask: A,
    seen: E,
    rename: R,
    ask_again: A2,
    seen_again: E2,
    rename_again: R2,
    before: Seq<ServerProfileView>,
    after: Seq<ServerProfileView>,
    flags: Seq<bool>,
    last: Seq<ServerProfileView>,
    again: Seq<bool>,
)
    requires
        all_migrated(vault, ask, seen, rename, before, after, flags),
        forall|i: int| 0 <= i < flags.len() ==> #[trigger] flags[i] || before[i].device_id.len() > 0,
        all_migrated(vault, ask_again, seen_again, rename_again, after, last, again),
    ensures
        last == after,
        set_flags(again) == 0,
{
    assert forall|i: int| 0 <= i < after.len() implies last[i] == after[i] && !again[i] by {
        assert(flags[i] || before[i].device_id.len() > 0);
        assert(migrated(vault, ask, seen, rename, before[i], after[i], flags[i]));
        assert(after[i].device_id.len() > 0);
        assert(migrated(vault, ask_again, seen_again, rename_again, after[i], last[i], again[i]));
    }
    assert(last =~= after);
    lemma_no_flags(again);
}

proof fn lemma_no_flags(flags: Seq<bool>)
    requires
        forall|i: int| 0 <= i < flags.len() ==> !#[trigger] flags[i],
    ensures
        set_flags(flags) == 0,
    decreases flags.len(),
{
    if flags.len() > 0 {
        lemma_no_flags(flags.drop_last());
    }
}

// ---------- who is who ----------

proof fn lemma_first_where(s: Seq<ServerProfileView>, f: spec_fn(ServerProfileView) -> bool, k: int)
    requires
        0 <= k <= s.len(),
        forall|j: int| 0 <= j < k ==> !f(#[trigger] s[j]),
        k < s.len() ==> f(s[k]),
    ensures
        k < s.len() ==> first_where(s, f) == Some(s[k]),
        k == s.len() ==> first_where(s, f) is None,
    decreases s.len(),
{
    if s.len() > 0 && k > 0 {
        assert(!f(s[0]));
        let rest = s.drop_first();
        assert forall|j: int| 0 <= j < k - 1 implies !f(#[trigger] rest[j]) by {
            assert(!f(s[j + 1]));
        }
        lemma_first_where(rest, f, k - 1);
    }
}

/// A device is known by its identity, whatever it is called now. Only where no
/// server has that identity is it known by its name, and then only as a server
/// that has no identity yet. Of several the first counts.
pub proof fn law_devices_are_known_by_identity(
    servers: Seq<ServerProfileView>,
    device_id: Seq<char>,
    name: Seq<char>,
    k: int,
)
    requires
        0 <= k < servers.len(),
    ensures
        ({
            let r = match_of(servers, device_id, name);
            let known = device_id.len() > 0 && exists|i: int|
                0 <= i < servers.len() && (#[trigger] servers[i]).device_id == device_id;
            &&& device_id.len() > 0 && servers[k].device_id == device_id && (forall|j: int|
                0 <= j < k ==> (#[trigger] servers[j]).device_id != device_id) ==> r == Some(servers[k])
            &&& !known && name.len() > 0 && servers[k].device_id.len() == 0 && servers[k].name == name && (forall|
                j: int,
            |
                0 <= j < k ==> (#[trigger] servers[j]).device_id.len() > 0 || servers[j].name != name) ==> r == Some(
                servers[k],
            )
            &&& !known && (name.len() == 0 || forall|j: int|
                0 <= j < servers.len() ==> (#[trigger] servers[j]).device_id.len() > 0 || servers[j].name != name)
                ==> r is None
        }),
{
    let f = has_device(device_id);
    let g = nameless_device(name);
    let known = device_id.len() > 0 && exists|i: int|
        0 <= i < servers.len() && (#[trigger] servers[i]).device_id == device_id;
    if device_id.len() > 0 && servers[k].device_id == device_id && (forall|j: int|
        0 <= j < k ==> (#[trigger] servers[j]).device_id != device_id) {
        lemma_first_where(servers, f, k);
    }
    if device_id.len() > 0 && !known {
        lemma_first_where(servers, f, servers.len() as int);
    }
    if !known && name.len() > 0 {
        if servers[k].device_id.len() == 0 && servers[k].name == name && (forall|j: int|
            0 <= j < k ==> (#[trigger] servers[j]).device_id.len() > 0 || servers[j].name != name) {
            lemma_first_where(servers, g, k);
        }
        if forall|j: int|
            0 <= j < servers.len() ==> (#[trigger] servers[j]).device_id.len() > 0 || servers[j].name != name {
            lemma_first_where(servers, g, servers.len() as int);
        }
    }
}

/// A server is named by its device; one without identity by its address and
/// token. What is known of it lies in the vault under that name.
pub proof fn law_names_of_servers(device_id: Seq<char>, url: &str, token: &str, id: Seq<char>, vault: Seq<char>)
    requires
        vault.len() > 0,
        vault.last() != '/',
    ensures
        device_id.len() > 0 ==> id_of(device_id, address_hash(url@, token@)) == seq!['d'] + device_id,
        device_id.len() == 0 ==> id_of(device_id, address_hash(url@, token@)) == seq!['s'] + text::hex(
            crate::digest::sha256(vstd::utf8::encode_utf8(url@ + token@)),
        ).take(8),
        state_path(vault, id) == vault + "/.lanmark/sync-"@ + id + ".json"@,
{
    reveal_strlit("d");
    reveal_strlit("s");
    reveal_strlit("/");
    reveal_strlit(".lanmark");
    reveal_strlit("sync-");
    reveal_strlit("/.lanmark/sync-");
    assert("d"@ =~= seq!['d']);
    assert("s"@ =~= seq!['s']);
    let base = fs_ops::join(vault, fs_ops::META_DIR@);
    assert(base == vault + "/"@ + ".lanmark"@);
    assert(base.last() == 'k');
    assert(vault + "/.lanmark/sync-"@ + id + ".json"@ =~= base + "/"@ + ("sync-"@ + id + ".json"@));
}

// ---------- addresses ----------

/// An address is what was typed without white space around it and slashes behind
/// it; it has to start with `http://`.
pub proof fn law_addresses_are_what_was_typed(raw: Seq<char>, u: Seq<char>, k: nat)
    requires
        u.len() > 0,
        u.last() != '/',
        text::trimmed(raw) == u + Seq::new(k, |i: int| '/'),
    ensures
        normalized(raw) is Ok <==> exists|t: Seq<char>| u == #[trigger] ("http://"@ + t),
        normalized(raw) matches Ok(x) ==> x == u,
{
    lemma_slashes_go(u, k);
    text::law_parts_of_a_text(u, "http://"@);
}

proof fn lemma_slashes_go(u: Seq<char>, k: nat)
    requires
        u.len() > 0,
        u.last() != '/',
    ensures
        text::trim_end_char(u + Seq::new(k, |i: int| '/'), '/') == u,
    decreases k,
{
    let s = u + Seq::new(k, |i: int| '/');
    if k > 0 {
        assert(s.last() == '/');
        assert(s.drop_last() =~= u + Seq::new((k - 1) as nat, |i: int| '/'));
        lemma_slashes_go(u, (k - 1) as nat);
    } else {
        assert(s =~= u);
    }
}

/// Nothing but slashes is no address.
pub proof fn law_empty_addresses_are_refused(raw: Seq<char>, k: nat)
    requires
        text::trimmed(raw) == Seq::new(k, |i: int| '/'),
    ensures
        normalized(raw) is Err,
{
    text::lemma_trim_end_char(text::trimmed(raw), '/');
    let u = text::trim_end_char(text::trimmed(raw), '/');
    if u.len() > 0 {
        assert(u.last() == text::trimmed(raw)[u.len() - 1]);
    }
}

/// The port of an address is the number behind its last colon, up to a slash; an
/// address without a colon behind `http://` has none.
pub proof fn law_port_stands_behind_the_colon(host: Seq<char>, n: nat, rest: Seq<char>)
    requires
        forall|i: int| 0 <= i < rest.len() ==> #[trigger] rest[i] != ':',
        rest.len() > 0 ==> rest[0] == '/',
    ensures
        n <= 65535 ==> port_of("http://"@ + (host + seq![':'] + text::decimal(n) + rest)) == Some(n as int),
        n > 65535 ==> port_of("http://"@ + (host + seq![':'] + text::decimal(n) + rest)) is None,
        port_of("http://"@ + rest) is None,
{
    let p = "http://"@;
    let d = text::decimal(n);
    let body = host + seq![':'] + d + rest;
    let url = p + body;
    assert(url.take(p.len() as int) =~= p);
    assert(url.skip(p.len() as int) =~= body);
    text::lemma_number_of_decimal(n);
    text::lemma_last_index(body, ':');
    let h = host.len() as int;
    assert(body[h] == ':');
    assert forall|i: int| h < i < body.len() implies body[i] != ':' by {
        if i < h + 1 + d.len() {
            assert(body[i] == d[i - h - 1]);
            assert(text::is_digit(d[i - h - 1]));
        } else {
            assert(body[i] == rest[i - h - 1 - d.len()]);
        }
    }
    assert(text::last_index(body, ':') == h);
    let tail = body.skip(h + 1);
    assert(tail =~= d + rest);
    text::lemma_first_index(tail, '/');
    assert forall|i: int| 0 <= i < d.len() implies tail[i] != '/' by {
        assert(tail[i] == d[i]);
        assert(text::is_digit(d[i]));
    }
    if rest.len() > 0 {
        assert(tail[d.len() as int] == '/');
        assert(text::first_index(tail, '/') == d.len());
        assert(tail.take(d.len() as int) =~= d);
    } else {
        assert(tail =~= d);
    }
    assert(text::split(tail, '/')[0] == d);
    text::law_written_numbers_are_read(n, u16::MAX as int, d);
    let bare = p + rest;
    assert(bare.take(p.len() as int) =~= p);
    assert(bare.skip(p.len() as int) =~= rest);
    text::lemma_last_index(rest, ':');
    if text::last_index(rest, ':') >= 0 {
        assert(rest[text::last_index(rest, ':')] != ':');
    }
}

// ---------- answers ----------

/// An answer is believed only where a server answered, said that all went well,
/// and what it sent could be read.
pub proof fn law_only_good_answers_count<T>(what: Seq<char>, parse: Seq<char>, a: Answer<T>)
    ensures
        reply_of(what, parse, a) is Ok <==> (a matches Answer::Status(s, _, body) && 200 <= s <= 299 && body is Ok),
        reply_of(what, parse, a) matches Ok(t) ==> (a matches Answer::Status(_, _, body) && body == Ok::<
            T,
            String,
        >(t)),
{
}

/// A device is a server of this application only where it says so; its name and
/// figures are then those that it gives, and it is offline where it is not.
pub proof fn law_only_our_servers_count(a: Answer<InfoResponse>, name: Seq<char>)
    ensures
        info_reply(a) is Ok <==> (a matches Answer::Status(s, _, body) && 200 <= s <= 299 && body is Ok
            && body->Ok_0@.app == "lanmark"@),
        info_reply(a) matches Ok(i) ==> {
            &&& a matches Answer::Status(_, _, body)
            &&& body == Ok::<InfoResponse, String>(i)
            &&& probe_of(info_reply(a), name).online
            &&& probe_of(info_reply(a), name).name == i@.name
            &&& probe_of(info_reply(a), name).notes == i@.notes
            &&& probe_of(info_reply(a), name).assets == i@.assets
        },
        info_reply(a) is Err ==> !probe_of(info_reply(a), name).online && probe_of(info_reply(a), name).name == name
            && probe_of(info_reply(a), name).notes == 0 && probe_of(info_reply(a), name).assets == 0,
{
}

/// A device is asked at its address, slashes behind it left out.
pub proof fn law_info_is_asked_at_the_address<G: Fn(&String) -> Answer<InfoResponse>>(
    url: &str,
    get: G,
    r: Result<InfoResponse, String>,
    u: Seq<char>,
    k: nat,
)
    requires
        call_ensures(fetch_info::<G>, (url, get), r),
        u.len() > 0,
        u.last() != '/',
        url@ == u + Seq::new(k, |i: int| '/'),
    ensures
        exists|t: String, a: Answer<InfoResponse>|
            {
                &&& #[trigger] call_ensures(get, (&t,), a)
                &&& t@ == u + "/api/v1/info"@
                &&& r is Ok <==> info_reply(a) is Ok
                &&& r matches Ok(i) ==> info_reply(a) == Ok::<InfoResponse, Seq<char>>(i)
            },
{
    lemma_slashes_go(u, k);
    let (t, a) = choose|t: String, a: Answer<InfoResponse>|
        {
            &&& #[trigger] call_ensures(get, (&t,), a)
            &&& t@ == info_url(url@)
            &&& reply_view(r) == info_reply(a)
        };
    assert(call_ensures(get, (&t,), a));
}

/// Pairing gives the token and the name that the server sent, and only where it
/// answered that the code was right. The code is sent without white space around
/// it, and nothing is sent to what is no address.
pub proof fn law_pairing_takes_the_token<P: Fn(&String, &String) -> Answer<(String, String)>>(
    base_url: &str,
    code: &str,
    post: P,
    r: Result<(String, String), String>,
)
    requires
        call_ensures(pair::<P>, (base_url, code, post), r),
    ensures
        normalized(base_url@) is Err ==> r is Err,
        normalized(base_url@) matches Ok(url) ==> exists|u: String, c: String, a: Answer<(String, String)>|
            {
                &&& #[trigger] call_ensures(post, (&u, &c), a)
                &&& u@ == url + "/api/v1/pair"@
                &&& c@ == text::trimmed(code@)
                &&& r is Ok <==> (a matches Answer::Status(200, _, body) && body is Ok)
                &&& r matches Ok(p) ==> (a matches Answer::Status(_, _, Ok(q)) && q.0@ == p.0@ && q.1@ == p.1@)
            },
{
    if normalized(base_url@) is Ok {
        let url = normalized(base_url@)->Ok_0;
        let (u, c, a) = choose|u: String, c: String, a: Answer<(String, String)>|
            {
                &&& #[trigger] call_ensures(post, (&u, &c), a)
                &&& u@ == url + "/api/v1/pair"@
                &&& c@ == text::trimmed(code@)
                &&& pair_view(r) == pair_reply(a)
            };
        assert(call_ensures(post, (&u, &c), a));
    }
}

// ---------- the list of servers ----------

proof fn lemma_filtered(s: Seq<ServerProfileView>, f: spec_fn(ServerProfileView) -> bool, x: ServerProfileView)
    ensures
        s.filter(f).contains(x) <==> s.contains(x) && f(x),
{
    if s.contains(x) && f(x) {
        let i = choose|i: int| 0 <= i < s.len() && s[i] == x;
        s.lemma_filter_contains(f, i);
    }
    if s.filter(f).contains(x) {
        let k = choose|k: int| 0 <= k < s.filter(f).len() && s.filter(f)[k] == x;
        s.lemma_filter_pred(f, k);
        s.lemma_filter_contains_rev(f, x);
    }
}

/// A new profile takes the place of those with its address or its identity, and
/// of no others.
pub proof fn law_other_servers_stay(servers: Seq<ServerProfileView>, profile: ServerProfileView, s: ServerProfileView)
    ensures
        with_profile(servers, profile).contains(s) <==> s == profile || (servers.contains(s) && s.url != profile.url
            && !(profile.device_id.len() > 0 && s.device_id == profile.device_id)),
{
    let f = is_other(profile);
    let kept = servers.filter(f);
    let all = with_profile(servers, profile);
    lemma_filtered(servers, f, s);
    assert(all[kept.len() as int] == profile);
    if kept.contains(s) {
        let k = choose|k: int| 0 <= k < kept.len() && kept[k] == s;
        assert(all[k] == s);
    }
    if all.contains(s) {
        let k = choose|k: int| 0 <= k < all.len() && all[k] == s;
        if k < kept.len() {
            assert(kept[k] == s);
        }
    }
}

/// Removing a server removes those with its name, and no others.
pub proof fn law_only_the_server_is_removed(servers: Seq<ServerProfileView>, id: Seq<char>, s: ServerProfileView)
    ensures
        servers.filter(is_not(id)).contains(s) <==> servers.contains(s) && s.id != id,
{
    lemma_filtered(servers, is_not(id), s);
}

proof fn lemma_id_index(servers: Seq<ServerProfileView>, id: Seq<char>, k: int)
    requires
        0 <= k <= servers.len(),
        forall|j: int| 0 <= j < k ==> (#[trigger] servers[j]).id != id,
        k < servers.len() ==> servers[k].id == id,
    ensures
        id_index(servers, id) == k,
    decreases servers.len(),
{
    if servers.len() > 0 && k > 0 {
        assert(servers[0].id != id);
        let rest = servers.drop_first();
        assert forall|j: int| 0 <= j < k - 1 implies (#[trigger] rest[j]).id != id by {
            assert(servers[j + 1].id != id);
        }
        lemma_id_index(rest, id, k - 1);
    }
}

/// A server is found by its name, the first of several. A new address and the time
/// of a round are noted with that server only, and nothing else of it changes;
/// where no server has the name, nothing is noted.
pub proof fn law_servers_are_found_by_name(
    servers: Seq<ServerProfileView>,
    id: Seq<char>,
    url: Seq<char>,
    now_ms: i64,
    k: int,
)
    requires
        0 <= k <= servers.len(),
        forall|j: int| 0 <= j < k ==> (#[trigger] servers[j]).id != id,
        k < servers.len() ==> servers[k].id == id,
    ensures
        server_with(servers, id) is Ok <==> k < servers.len(),
        k == servers.len() ==> with_url(servers, id, url) == servers && with_success(servers, id, now_ms) == servers,
        k < servers.len() ==> {
            let a = with_url(servers, id, url);
            let b = with_success(servers, id, now_ms);
            &&& server_with(servers, id) == Ok::<ServerProfileView, Seq<char>>(servers[k])
            &&& a.len() == servers.len()
            &&& b.len() == servers.len()
            &&& forall|j: int| 0 <= j < servers.len() && j != k ==> #[trigger] a[j] == servers[j]
            &&& forall|j: int| 0 <= j < servers.len() && j != k ==> #[trigger] b[j] == servers[j]
            &&& a[k].url == url
            &&& a[k].id == servers[k].id
            &&& a[k].name == servers[k].name
            &&& a[k].token == servers[k].token
            &&& a[k].device_id == servers[k].device_id
            &&& a[k].last_success_at == servers[k].last_success_at
            &&& b[k].last_success_at == Some(now_ms)
            &&& b[k].url == servers[k].url
            &&& b[k].id == servers[k].id
            &&& b[k].name == servers[k].name
            &&& b[k].token == servers[k].token
            &&& b[k].device_id == servers[k].device_id
        },
{
    lemma_id_index(servers, id, k);
}

/// A new profile holds what pairing gave, and has seen no round yet.
pub proof fn law_new_profiles_hold_what_was_given(
    url: &str,
    token: &str,
    name: &str,
    device_id: &str,
    p: ServerProfile,
)
    requires
        call_ensures(new_profile, (url, token, name, device_id), p),
    ensures
        p@.url == url@,
        p@.token == token@,
        p@.name == name@,
        p@.device_id == device_id@,
        p@.last_success_at is None,
        device_id@.len() > 0 ==> p@.id == seq!['d'] + device_id@,
        port_int(p@.port) == port_of(url@),
{
    reveal_strlit("d");
    assert("d"@ =~= seq!['d']);
}

/// Binding a profile to its device changes how it is named, and nothing that is
/// needed to reach it. It happens only where the device gives an identity; a
/// profile that has one, or whose device does not answer, stays as it is. What is
/// known of the server is carried over to its new name, and where that fails the
/// profile stays.
pub proof fn law_binding_keeps_what_is_needed<
    A: Fn(&String) -> Result<InfoResponse, String>,
    E: Fn(&String) -> bool,
    R: Fn(&String, &String) -> bool,
>(
    vault: Seq<char>,
    ask: A,
    seen: E,
    rename: R,
    p: ServerProfileView,
    b: ServerProfileView,
    moved: bool,
)
    requires
        migrated(vault, ask, seen, rename, p, b, moved),
    ensures
        !moved ==> b == p,
        p.device_id.len() > 0 ==> !moved,
        moved ==> {
            &&& b.url == p.url
            &&& b.token == p.token
            &&& b.last_success_at == p.last_success_at
            &&& b.device_id.len() > 0
            &&& b.id == seq!['d'] + b.device_id
            &&& exists|u: String, i: InfoResponse|
                {
                    &&& #[trigger] call_ensures(ask, (&u,), Ok(i))
                    &&& u@ == p.url
                    &&& b.device_id == i@.device_id
                    &&& b.name == i@.name
                }
        },
        !moved && p.device_id.len() == 0 ==> {
            ||| exists|u: String, e: String| #[trigger] call_ensures(ask, (&u,), Err(e)) && u@ == p.url
            ||| exists|u: String, i: InfoResponse| #[trigger]
                call_ensures(ask, (&u,), Ok(i)) && u@ == p.url && i@.device_id.len() == 0
            ||| exists|f: String, t: String| #[trigger]
                call_ensures(rename, (&f, &t), false) && f@ == state_path(vault, p.id)
        },
{
    reveal_strlit("d");
    assert("d"@ =~= seq!['d']);
    let (info, kept) = choose|info: Option<InfoResponseView>, kept: bool| #[trigger]
        rebound(vault, seen, rename, p, info, kept, b, moved) && asked(ask, p, info);
    if p.device_id.len() == 0 {
        let (u, a) = choose|u: String, a: Result<InfoResponse, String>|
            {
                &&& #[trigger] call_ensures(ask, (&u,), a)
                &&& u@ == p.url
                &&& info == match a {
                    Ok(i) => Some(i@),
                    Err(_) => None,
                }
            };
        match a {
            Ok(i) => {
                assert(call_ensures(ask, (&u,), Ok(i)));
                if i@.device_id.len() > 0 && !moved {
                    let new_id = id_of(i@.device_id, address_hash(p.url, p.token));
                    let (f, t, has_from, has_to, renamed) = choose|
                        f: String,
                        t: String,
                        has_from: bool,
                        has_to: bool,
                        renamed: bool,
                    |
                        f@ == state_path(vault, p.id) && t@ == state_path(vault, new_id) && #[trigger] carry_told(
                            seen,
                            rename,
                            f,
                            t,
                            has_from,
                            has_to,
                            renamed,
                            kept,
                        );
                    assert(call_ensures(rename, (&f, &t), false));
                }
            },
            Err(e) => {
                assert(call_ensures(ask, (&u,), Err(e)));
            },
        }
    }
}

/// The profiles that were bound are counted one by one.
pub proof fn law_bound_profiles_are_counted(flags: Seq<bool>, x: bool)
    ensures
        set_flags(Seq::empty()) == 0,
        set_flags(flags.push(x)) == set_flags(flags) + if x {
            1nat
        } else {
            0
        },
{
    assert(flags.push(x).drop_last() =~= flags);
}

/// What is known of a server is carried over only where it is there and nothing
/// lies under the new name, so that nothing is written over.
pub proof fn law_nothing_known_is_written_over<E: Fn(&String) -> bool, R: Fn(&String, &String) -> bool>(
    seen: E,
    rename: R,
    from: Seq<char>,
    to: Seq<char>,
)
    requires
        forall|a: &String| a@ == from || a@ == to ==> #[trigger] call_requires(seen, (a,)),
        forall|a: &String, b: &String|
            {
                &&& a@ == from
                &&& b@ == to
                &&& exists|f: String| #[trigger] call_ensures(seen, (&f,), true) && f@ == from
                &&& exists|t: String| #[trigger] call_ensures(seen, (&t,), false) && t@ == to
            } ==> #[trigger] call_requires(rename, (a, b)),
    ensures
        carry_leave(seen, rename, from, to),
{
}

/// Whether a server is shown as online, and what of it, is what it answered when
/// it was asked at its address.
pub proof fn law_probes_show_what_was_answered<G: Fn(&String) -> Answer<InfoResponse>>(
    url: &str,
    name: &str,
    get: G,
    r: ProbeResult,
)
    requires
        call_ensures(probe_server::<G>, (url, name, get), r),
    ensures
        exists|t: String, a: Answer<InfoResponse>|
            {
                &&& #[trigger] call_ensures(get, (&t,), a)
                &&& t@ == info_url(url@)
                &&& r@.online <==> info_reply(a) is Ok
                &&& info_reply(a) matches Ok(i) ==> r@.name == i@.name && r@.notes == i@.notes && r@.assets == i@.assets
                &&& info_reply(a) is Err ==> r@.name == name@
            },
{
    let info = choose|info: Result<InfoResponse, Seq<char>>| #[trigger]
        info_outcome(get, url@, info) && r@ == probe_of(info, name@);
    let (t, a) = choose|t: String, a: Answer<InfoResponse>|
        {
            &&& #[trigger] call_ensures(get, (&t,), a)
            &&& t@ == info_url(url@)
            &&& info == info_reply(a)
        };
    assert(call_ensures(get, (&t,), a));
}

} // verus!
