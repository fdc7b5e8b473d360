//! Pairing on request: this side asks, and someone at the server allows it.
use vstd::prelude::*;

use crate::sync_client;
use crate::sync_client::{fetch_info, new_profile, normalize_url, Answer, InfoResponse, ServerProfile, ServerProfileView};
use crate::text;
use crate::text::{concat, concat3, same, white, to_chars};

verus! {

/// How a request for pairing ended.
#[derive(Debug, PartialEq, Eq)]
pub struct PairAttempt {
    /// `approved`, `rejected`, `timeout` or `error`.
    pub status: String,
    /// The profile of the server, where it was approved.
    pub profile: Option<ServerProfile>,
    /// Why it was not.
    pub reason: Option<String>,
}

pub struct PairAttemptView {
    pub status: Seq<char>,
    pub profile: Option<ServerProfileView>,
    pub reason: Option<Seq<char>>,
}

/// A profile that may be missing, by its view.
pub open spec fn maybe_profile(p: Option<ServerProfile>) -> Option<ServerProfileView> {
    match p {
        Some(s) => Some(s@),
        None => None,
    }
}

impl View for PairAttempt {
    type V = PairAttemptView;

    open spec fn view(&self) -> PairAttemptView {
        PairAttemptView {
            status: self.status@,
            profile: maybe_profile(self.profile),
            reason: text::opt_view(self.reason),
        }
    }
}

/// An attempt that ended without a profile.
pub open spec fn ended(status: Seq<char>, reason: Seq<char>) -> PairAttemptView {
    PairAttemptView { status, profile: None, reason: Some(reason) }
}

/// An attempt that ended without a profile.
fn end(status: &str, reason: &str) -> (r: PairAttempt)
    ensures
        r@ == ended(status@, reason@),
{
    PairAttempt { status: status.to_owned(), profile: None, reason: Some(reason.to_owned()) }
}

/// The address of the server that a request for pairing goes to, or how the
/// attempt ends at once.
pub fn pair_target(url: &str) -> (r: Result<String, PairAttempt>)
    ensures
        match sync_client::normalized(url@) {
            Ok(u) => r is Ok && r->Ok_0@ == u,
            Err(e) => r is Err && r->Err_0@ == ended("error"@, e),
        },
{
    match normalize_url(url) {
        Ok(u) => Ok(u),
        Err(e) => Err(end("error", e.as_str())),
    }
}

/// How the attempt ends with what the request met: it goes on only where the
/// server took it.
pub open spec fn posted(status: Result<(u16, Seq<char>), Seq<char>>) -> Option<PairAttemptView> {
    match status {
        Err(e) => Some(ended("error"@, "连接失败: "@ + e)),
        Ok((code, shown)) => if sync_client::is_success(code) {
            None
        } else if code == 429 {
            Some(ended("error"@, "对方手机上待确认的请求过多，请稍后再试"@))
        } else if code == 404 {
            Some(ended("error"@, "对方是无一键授权的旧版本，请用「手动连接」输入配对码"@))
        } else {
            Some(ended("error"@, "请求失败（HTTP "@ + shown + "）"@))
        },
    }
}

/// A status or a failure, by their views.
pub open spec fn status_view(s: Result<(u16, String), String>) -> Result<(u16, Seq<char>), Seq<char>> {
    match s {
        Ok((code, shown)) => Ok((code, shown@)),
        Err(e) => Err(e@),
    }
}

/// An attempt that may go on, by its view.
pub open spec fn attempt_view(a: Option<PairAttempt>) -> Option<PairAttemptView> {
    match a {
        Some(p) => Some(p@),
        None => None,
    }
}

/// How the attempt ends with what the request met; nothing where it goes on.
pub fn pair_posted(status: &Result<(u16, String), String>) -> (r: Option<PairAttempt>)
    ensures
        attempt_view(r) == posted(status_view(*status)),
{
    match status {
        Err(e) => {
            let why = concat("连接失败: ", e.as_str());
            Some(end("error", why.as_str()))
        },
        Ok((code, shown)) => {
            if 200 <= *code && *code <= 299 {
                None
            } else if *code == 429 {
                Some(end("error", "对方手机上待确认的请求过多，请稍后再试"))
            } else if *code == 404 {
                Some(end("error", "对方是无一键授权的旧版本，请用「手动连接」输入配对码"))
            } else {
                let why = concat3("请求失败（HTTP ", shown.as_str(), "）");
                Some(end("error", why.as_str()))
            }
        },
    }
}

/// What the server says of the request while it is asked again and again; a
/// text that it does not give is missing.
pub struct PairStatus {
    pub status: Option<String>,
    pub token: Option<String>,
    pub name: Option<String>,
    pub reason: Option<String>,
}

pub struct PairStatusView {
    pub status: Option<Seq<char>>,
    pub token: Option<Seq<char>>,
    pub name: Option<Seq<char>>,
    pub reason: Option<Seq<char>>,
}

impl View for PairStatus {
    type V = PairStatusView;

    open spec fn view(&self) -> PairStatusView {
        PairStatusView {
            status: text::opt_view(self.status),
            token: text::opt_view(self.token),
            name: text::opt_view(self.name),
            reason: text::opt_view(self.reason),
        }
    }
}

/// What to do next.
pub enum PollNext {
    /// Ask again.
    Wait,
    /// The request was approved, with the token and the name of the server.
    Approved(String, String),
    /// The attempt has ended.
    End(PairAttempt),
}

pub enum PollNextView {
    Wait,
    Approved(Seq<char>, Seq<char>),
    End(PairAttemptView),
}

impl View for PollNext {
    type V = PollNextView;

    open spec fn view(&self) -> PollNextView {
        match self {
            PollNext::Wait => PollNextView::Wait,
            PollNext::Approved(t, n) => PollNextView::Approved(t@, n@),
            PollNext::End(a) => PollNextView::End(a@),
        }
    }
}

/// What a text says, or `other` where it is missing.
pub open spec fn text_or(t: Option<Seq<char>>, other: Seq<char>) -> Seq<char> {
    match t {
        Some(s) => s,
        None => other,
    }
}

/// What to do next, as the server answers: no answer, one that cannot be read,
/// one that still waits, and an approval without a token mean to ask again.
/// Whatever else the server says means that the request has run out.
pub open spec fn polled(said: Option<PairStatusView>) -> PollNextView {
    match said {
        None => PollNextView::Wait,
        Some(s) => if s.status == Some("pending"@) {
            PollNextView::Wait
        } else if s.status == Some("approved"@) {
            match s.token {
                None => PollNextView::Wait,
                Some(token) => PollNextView::Approved(token, text_or(s.name, "Lanmark 手机"@)),
            }
        } else if s.status == Some("rejected"@) {
            PollNextView::End(ended("rejected"@, text_or(s.reason, "对方拒绝了这次连接"@)))
        } else {
            PollNextView::End(ended("timeout"@, "请求已过期，请重试"@))
        },
    }
}

/// What a server said, by its view.
pub open spec fn said_view(s: Option<PairStatus>) -> Option<PairStatusView> {
    match s {
        Some(p) => Some(p@),
        None => None,
    }
}

/// What to do next, as the server answers.
pub fn pair_polled(said: &Option<PairStatus>) -> (r: PollNext)
    ensures
        r@ == polled(said_view(*said)),
{
    let s: &PairStatus = match said {
        None => {
            return PollNext::Wait;
        },
        Some(s) => s,
    };
    let status: &str = match &s.status {
        None => {
            return PollNext::End(end("timeout", "请求已过期，请重试"));
        },
        Some(t) => t.as_str(),
    };
    if same(status, "pending") {
        PollNext::Wait
    } else if same(status, "approved") {
        match &s.token {
            None => PollNext::Wait,
            Some(token) => {
                let name: String = match &s.name {
                    Some(n) => n.clone(),
                    None => "Lanmark 手机".to_owned(),
                };
                PollNext::Approved(token.clone(), name)
            },
        }
    } else if same(status, "rejected") {
        match &s.reason {
            Some(why) => PollNext::End(end("rejected", why.as_str())),
            None => PollNext::End(end("rejected", "对方拒绝了这次连接")),
        }
    } else {
        PollNext::End(end("timeout", "请求已过期，请重试"))
    }
}

/// How an attempt ends that was approved, once the server was asked for its
/// identity, which may be empty.
pub fn pair_approved(url: &str, token: &str, name: &str, device_id: &str) -> (r: PairAttempt)
    ensures
        r@.status == "approved"@,
        r@.reason is None,
        r@.profile is Some,
        sync_client::profile_of(url@, token@, name@, device_id@, r@.profile->0),
{
    let p = new_profile(url, token, name, device_id);
    PairAttempt { status: "approved".to_owned(), profile: Some(p), reason: None }
}

/// How an attempt ends that waited too long.
pub fn pair_timed_out() -> (r: PairAttempt)
    ensures
        r@ == ended("timeout"@, "等待对方确认超时"@),
{
    end("timeout", "等待对方确认超时")
}

/// Only an approval yields a profile, and it carries the token that the server
/// gave; every other end has a reason.
pub proof fn law_only_approval_pairs(said: Option<PairStatusView>)
    ensures
        polled(said) is Approved ==> said is Some && said->0.status == Some("approved"@)
            && said->0.token is Some && polled(said)->Approved_0 == said->0.token->0,
        polled(said) is End ==> polled(said)->End_0.profile is None
            && polled(said)->End_0.reason is Some,
{
}

/// How long to wait between two questions, in milliseconds.
pub const POLL_MS: u64 = 1200;

/// Whether `r` is how an approved attempt ends, where `get` asks the server for
/// its identity; none is told where it does not answer.
pub open spec fn approved_as<G: Fn(&String) -> Answer<InfoResponse>>(
    get: G,
    url: Seq<char>,
    token: Seq<char>,
    name: Seq<char>,
    info: Result<InfoResponse, Seq<char>>,
    r: PairAttemptView,
) -> bool {
    let device_id = match info {
        Ok(i) => i@.device_id,
        Err(_) => Seq::empty(),
    };
    &&& sync_client::info_outcome(get, url, info)
    &&& r.status == "approved"@
    &&& r.reason is None
    &&& r.profile is Some
    &&& sync_client::profile_of(url, token, name, device_id, r.profile->0)
}

/// Whether `r` is how an approved attempt ends.
pub open spec fn approved<G: Fn(&String) -> Answer<InfoResponse>>(
    get: G,
    url: Seq<char>,
    token: Seq<char>,
    name: Seq<char>,
    r: PairAttemptView,
) -> bool {
    exists|info: Result<InfoResponse, Seq<char>>| #[trigger]
        approved_as(get, url, token, name, info, r)
}

/// Whether `said` is what asking the server about the request with the nonce
/// came to.
pub open spec fn asked_about<P: Fn(&String, &String) -> Option<PairStatus>>(
    poll: P,
    url: Seq<char>,
    nonce: Seq<char>,
    said: Option<PairStatus>,
) -> bool {
    exists|u: String, n: String|
        {
            &&& #[trigger] call_ensures(poll, (&u, &n), said)
            &&& u@ == url + "/api/v1/pair-status"@
            &&& n@ == nonce
        }
}

/// Whether `r` is how an attempt goes on from its question number `k`. Every
/// question gives the nonce of the request. It ends where the time has run out,
/// and after `most` questions at the latest.
pub open spec fn polls_to<
    X: Fn(u64) -> bool,
    P: Fn(&String, &String) -> Option<PairStatus>,
    G: Fn(&String) -> Answer<InfoResponse>,
>(
    expired: X,
    poll: P,
    get: G,
    url: Seq<char>,
    nonce: Seq<char>,
    k: u64,
    most: u64,
    r: PairAttemptView,
) -> bool
    decreases most - k,
{
    if k >= most {
        r == ended("timeout"@, "等待对方确认超时"@)
    } else {
        ||| call_ensures(expired, (k,), true) && r == ended("timeout"@, "等待对方确认超时"@)
        ||| call_ensures(expired, (k,), false) && exists|said: Option<PairStatus>|
            {
                &&& #[trigger] asked_about(poll, url, nonce, said)
                &&& match polled(said_view(said)) {
                    PollNextView::Wait => polls_to(
                        expired,
                        poll,
                        get,
                        url,
                        nonce,
                        (k + 1) as u64,
                        most,
                        r,
                    ),
                    PollNextView::End(a) => r == a,
                    PollNextView::Approved(token, name) => approved(get, url, token, name, r),
                }
            }
    }
}

/// Whether `status` is what sending the request came to. It names this side and
/// carries the nonce.
pub open spec fn sent<Q: Fn(&String, &String, &String) -> Result<(u16, String), String>>(
    post: Q,
    url: Seq<char>,
    client: Seq<char>,
    nonce: Seq<char>,
    status: Result<(u16, String), String>,
) -> bool {
    exists|u: String, c: String, n: String|
        {
            &&& #[trigger] call_ensures(post, (&u, &c, &n), status)
            &&& u@ == url + "/api/v1/pair-request"@
            &&& c@ == client
            &&& n@ == nonce
        }
}

/// Whether `r` is how an attempt ends that was sent to `url`.
pub open spec fn attempt_to<
    Q: Fn(&String, &String, &String) -> Result<(u16, String), String>,
    X: Fn(u64) -> bool,
    P: Fn(&String, &String) -> Option<PairStatus>,
    G: Fn(&String) -> Answer<InfoResponse>,
>(
    post: Q,
    expired: X,
    poll: P,
    get: G,
    url: Seq<char>,
    client: Seq<char>,
    nonce: Seq<char>,
    most: u64,
    r: PairAttemptView,
) -> bool {
    exists|status: Result<(u16, String), String>|
        {
            &&& #[trigger] sent(post, url, client, nonce, status)
            &&& match posted(status_view(status)) {
                Some(a) => r == a,
                None => polls_to(expired, poll, get, url, nonce, 0, most, r),
            }
        }
}

/// The calls that waiting for an answer may make: a question only while there is
/// time, with the nonce of the request, and the question for the identity only
/// once the server has approved.
pub open spec fn wait_leave<
    X: Fn(u64) -> bool,
    P: Fn(&String, &String) -> Option<PairStatus>,
    G: Fn(&String) -> Answer<InfoResponse>,
>(expired: X, poll: P, get: G, url: Seq<char>, nonce: Seq<char>, most: u64) -> bool {
    &&& forall|k: u64| k < most ==> #[trigger] call_requires(expired, (k,))
    &&& forall|u: &String, n: &String, k: u64|
        {
            &&& k < most
            &&& #[trigger] call_ensures(expired, (k,), false)
            &&& u@ == url + "/api/v1/pair-status"@
            &&& n@ == nonce
        } ==> #[trigger] call_requires(poll, (u, n))
    &&& forall|u: &String, said: Option<PairStatus>|
        {
            &&& #[trigger] asked_about(poll, url, nonce, said)
            &&& polled(said_view(said)) is Approved
            &&& u@ == sync_client::info_url(url)
        } ==> #[trigger] call_requires(get, (u,))
}

/// The calls that an attempt may make: one request to the address, with the name
/// of this side and the nonce, and questions only once it was taken.
pub open spec fn attempt_leave<
    Q: Fn(&String, &String, &String) -> Result<(u16, String), String>,
    X: Fn(u64) -> bool,
    P: Fn(&String, &String) -> Option<PairStatus>,
    G: Fn(&String) -> Answer<InfoResponse>,
>(
    post: Q,
    expired: X,
    poll: P,
    get: G,
    url: Seq<char>,
    client: Seq<char>,
    nonce: Seq<char>,
    most: u64,
) -> bool {
    &&& forall|u: &String, c: &String, n: &String|
        u@ == url + "/api/v1/pair-request"@ && c@ == client && n@ == nonce ==> #[trigger] call_requires(
            post,
            (u, c, n),
        )
    &&& forall|status: Result<(u16, String), String>| #[trigger]
        sent(post, url, client, nonce, status) && posted(status_view(status)) is None ==> wait_leave(
            expired,
            poll,
            get,
            url,
            nonce,
            most,
        )
}

/// Asks a server for pairing and waits until someone there allows or refuses
/// it. It never fails: whatever happens is an end. `post` sends the request with
/// the name of this side and the nonce, `expired` says before the question with
/// the given number whether the time has run out, `poll` waits a moment and asks
/// about the nonce, and `get` asks the server for its identity. After `most`
/// questions the time has run out in any case. For an address that is refused
/// nothing is sent.
pub fn request_pair_blocking<
    Q: Fn(&String, &String, &String) -> Result<(u16, String), String>,
    X: Fn(u64) -> bool,
    P: Fn(&String, &String) -> Option<PairStatus>,
    G: Fn(&String) -> Answer<InfoResponse>,
>(url: &str, client: &String, nonce: &String, most: u64, post: Q, expired: X, poll: P, get: G) -> (r: PairAttempt)
    requires
        sync_client::normalized(url@) is Ok ==> attempt_leave(
            post,
            expired,
            poll,
            get,
            sync_client::normalized(url@)->Ok_0,
            client@,
            nonce@,
            most,
        ),
    ensures
        match sync_client::normalized(url@) {
            Err(e) => r@ == ended("error"@, e),
            Ok(target) => attempt_to(post, expired, poll, get, target, client@, nonce@, most, r@),
        },
{
    let target: String = match pair_target(url) {
        Ok(t) => t,
        Err(a) => {
            return a;
        },
    };
    let request = concat(target.as_str(), "/api/v1/pair-request");
    let status = post(&request, client, nonce);
    assert(call_ensures(post, (&request, client, nonce), status));
    assert(sent(post, target@, client@, nonce@, status));
    if let Some(a) = pair_posted(&status) {
        return a;
    }
    let question = concat(target.as_str(), "/api/v1/pair-status");
    let r = poll_for_pair(target.as_str(), &question, nonce, most, expired, poll, get);
    assert(attempt_to(post, expired, poll, get, target@, client@, nonce@, most, r@));
    r
}

/// Asks again and again until the attempt ends.
fn poll_for_pair<
    X: Fn(u64) -> bool,
    P: Fn(&String, &String) -> Option<PairStatus>,
    G: Fn(&String) -> Answer<InfoResponse>,
>(url: &str, question: &String, nonce: &String, most: u64, expired: X, poll: P, get: G) -> (r: PairAttempt)
    requires
        question@ == url@ + "/api/v1/pair-status"@,
        wait_leave(expired, poll, get, url@, nonce@, most),
    ensures
        polls_to(expired, poll, get, url@, nonce@, 0, most, r@),
{
    let mut k: u64 = 0;
    while k < most
        invariant
            k <= most,
            question@ == url@ + "/api/v1/pair-status"@,
            wait_leave(expired, poll, get, url@, nonce@, most),
            forall|r: PairAttemptView|
                polls_to(expired, poll, get, url@, nonce@, k, most, r) ==> polls_to(
                    expired,
                    poll,
                    get,
                    url@,
                    nonce@,
                    0,
                    most,
                    r,
                ),
        decreases most - k,
    {
        let done: bool = expired(k);
        if done {
            let r = pair_timed_out();
            assert(polls_to(expired, poll, get, url@, nonce@, k, most, r@));
            return r;
        }
        assert(call_ensures(expired, (k,), false));
        let said = poll(question, nonce);
        assert(call_ensures(poll, (question, nonce), said));
        assert(asked_about(poll, url@, nonce@, said));
        let next = pair_polled(&said);
        match next {
            PollNext::Wait => {
                assert forall|r: PairAttemptView|
                    polls_to(expired, poll, get, url@, nonce@, (k + 1) as u64, most, r) implies polls_to(
                    expired,
                    poll,
                    get,
                    url@,
                    nonce@,
                    0,
                    most,
                    r,
                ) by {
                    assert(polls_to(expired, poll, get, url@, nonce@, k, most, r));
                }
                k = k + 1;
            },
            PollNext::End(a) => {
                assert(polls_to(expired, poll, get, url@, nonce@, k, most, a@));
                return a;
            },
            PollNext::Approved(token, name) => {
                let r = identify(url, token.as_str(), name.as_str(), get);
                assert(polls_to(expired, poll, get, url@, nonce@, k, most, r@));
                return r;
            },
        }
    }
    pair_timed_out()
}

/// How an approved attempt ends.
fn identify<G: Fn(&String) -> Answer<InfoResponse>>(url: &str, token: &str, name: &str, get: G) -> (r: PairAttempt)
    requires
        forall|u: &String| u@ == sync_client::info_url(url@) ==> #[trigger] call_requires(get, (u,)),
    ensures
        approved(get, url@, token@, name@, r@),
{
    let info = fetch_info(url, get);
    let ghost seen = sync_client::reply_view(info);
    let device_id: String = match info {
        Ok(i) => i.device_id,
        Err(_) => String::new(),
    };
    let r = pair_approved(url, token, name, device_id.as_str());
    assert(seen is Err ==> device_id@ =~= Seq::<char>::empty());
    assert(approved_as(get, url@, token@, name@, seen, r@));
    r
}

/// For how many seconds to wait for an approval: what is asked for within
/// bounds, or a minute and a half.
pub open spec fn wait_secs(asked: Option<u64>) -> u64 {
    match asked {
        None => 90,
        Some(n) => if n < 5 {
            5
        } else if n > 300 {
            300
        } else {
            n
        },
    }
}

/// For how many seconds to wait for an approval.
pub fn connect_secs(asked: Option<u64>) -> (r: u64)
    ensures
        r == wait_secs(asked),
        5 <= r <= 300,
{
    match asked {
        None => 90,
        Some(n) => {
            if n < 5 {
                5
            } else if n > 300 {
                300
            } else {
                n
            }
        },
    }
}

/// Whether a text is made of blanks alone.
pub open spec fn is_blank(s: Seq<char>) -> bool {
    forall|i: int| 0 <= i < s.len() ==> text::is_white(#[trigger] s[i])
}

fn blank(s: &str) -> (r: bool)
    ensures
        r == is_blank(s@),
{
    let v = to_chars(s);
    let mut i: usize = 0;
    while i < v.len()
        invariant
            i <= v.len(),
            v@ == s@,
            forall|j: int| 0 <= j < i ==> text::is_white(#[trigger] v@[j]),
        decreases v.len() - i,
    {
        if !white(v[i]) {
            assert(!text::is_white(v@[i as int]));
            return false;
        }
        i = i + 1;
    }
    true
}

/// The name by which this side shows itself: the name of the host, else of the
/// computer; where that is missing or blank, of the user.
pub open spec fn client_name_of(
    host: Option<Seq<char>>,
    computer: Option<Seq<char>>,
    user: Option<Seq<char>>,
) -> Seq<char> {
    let machine = if host is Some {
        host
    } else {
        computer
    };
    if machine is Some && !is_blank(machine->0) {
        machine->0
    } else {
        text_or(user, "Lanmark 电脑"@)
    }
}

/// The name by which this side shows itself.
pub fn client_name(host: Option<&str>, computer: Option<&str>, user: Option<&str>) -> (r: String)
    ensures
        r@ == client_name_of(text::opt_str(host), text::opt_str(computer), text::opt_str(user)),
{
    let machine: Option<&str> = match host {
        Some(h) => Some(h),
        None => computer,
    };
    if let Some(m) = machine {
        if !blank(m) {
            return m.to_owned();
        }
    }
    match user {
        Some(u) => u.to_owned(),
        None => "Lanmark 电脑".to_owned(),
    }
}

// ---------- what an attempt comes to ----------

/// A request for pairing goes on exactly where the server took it; in any other
/// case the attempt ends with an error and a reason, and without a profile.
pub proof fn law_requests_go_on_where_they_were_taken(code: u16, shown: Seq<char>, e: Seq<char>)
    ensures
        posted(Ok((code, shown))) is None <==> 200 <= code <= 299,
        posted(Ok((code, shown))) matches Some(a) ==> a.status == "error"@ && a.profile is None && a.reason is Some,
        posted(Err(e)) matches Some(a) && a.status == "error"@ && a.profile is None && a.reason is Some,
{
}

/// While nothing is decided, or nobody answers, this side waits. Approval with a
/// token pairs under the name that is given, or a name for a phone; a refusal
/// ends the attempt as rejected with its reason, and anything else as expired.
pub proof fn law_decisions_are_followed(s: PairStatusView)
    ensures
        polled(None) == PollNextView::Wait,
        s.status == Some("pending"@) ==> polled(Some(s)) == PollNextView::Wait,
        s.status == Some("approved"@) ==> match s.token {
            Some(t) => polled(Some(s)) == PollNextView::Approved(
                t,
                match s.name {
                    Some(n) => n,
                    None => "Lanmark 手机"@,
                },
            ),
            None => polled(Some(s)) == PollNextView::Wait,
        },
        s.status == Some("rejected"@) ==> (polled(Some(s)) matches PollNextView::End(a) && a.status == "rejected"@
            && a.profile is None && (s.reason is Some ==> a.reason == s.reason)),
        s.status != Some("pending"@) && s.status != Some("approved"@) && s.status != Some("rejected"@) ==> (polled(
            Some(s),
        ) matches PollNextView::End(a) && a.status == "timeout"@ && a.profile is None),
{
    reveal_strlit("pending");
    reveal_strlit("approved");
    reveal_strlit("rejected");
    assert("pending"@[0] == 'p' && "approved"@[0] == 'a' && "rejected"@[0] == 'r');
}

/// Whether someone on the other side was asked about this request, at this server,
/// and said what `said` is.
pub open spec fn was_told<P: Fn(&String, &String) -> Option<PairStatus>>(
    poll: P,
    url: Seq<char>,
    nonce: Seq<char>,
    said: PairStatusView,
) -> bool {
    exists|u: String, n: String, x: PairStatus|
        {
            &&& #[trigger] call_ensures(poll, (&u, &n), Some(x))
            &&& x@ == said
            &&& u@ == url + "/api/v1/pair-status"@
            &&& n@ == nonce
        }
}

proof fn lemma_polls<
    X: Fn(u64) -> bool,
    P: Fn(&String, &String) -> Option<PairStatus>,
    G: Fn(&String) -> Answer<InfoResponse>,
>(
    expired: X,
    poll: P,
    get: G,
    url: Seq<char>,
    nonce: Seq<char>,
    k: u64,
    most: u64,
    r: PairAttemptView,
)
    requires
        polls_to(expired, poll, get, url, nonce, k, most, r),
    ensures
        r.profile matches Some(p) ==> {
            &&& r.status == "approved"@
            &&& p.url == url
            &&& exists|said: PairStatusView|
                {
                    &&& #[trigger] was_told(poll, url, nonce, said)
                    &&& said.status == Some("approved"@)
                    &&& said.token == Some(p.token)
                }
        },
        r.profile is None ==> r.reason is Some && r.status != "approved"@,
        r.status == "rejected"@ ==> exists|said: PairStatusView| #[trigger]
            was_told(poll, url, nonce, said) && said.status == Some("rejected"@),
    decreases most - k,
{
    reveal_strlit("approved");
    reveal_strlit("rejected");
    reveal_strlit("timeout");
    assert("approved"@[0] == 'a' && "rejected"@[0] == 'r' && "timeout"@[0] == 't');
    if k >= most || (call_ensures(expired, (k,), true) && r == ended("timeout"@, "等待对方确认超时"@)) {
    } else {
        let said = choose|said: Option<PairStatus>|
            {
                &&& #[trigger] asked_about(poll, url, nonce, said)
                &&& match polled(said_view(said)) {
                    PollNextView::Wait => polls_to(
                        expired,
                        poll,
                        get,
                        url,
                        nonce,
                        (k + 1) as u64,
                        most,
                        r,
                    ),
                    PollNextView::End(a) => r == a,
                    PollNextView::Approved(token, name) => approved(get, url, token, name, r),
                }
            };
        if said is Some {
            let (u, n) = choose|u: String, n: String|
                {
                    &&& #[trigger] call_ensures(poll, (&u, &n), said)
                    &&& u@ == url + "/api/v1/pair-status"@
                    &&& n@ == nonce
                };
            assert(call_ensures(poll, (&u, &n), Some(said->0)));
            assert(was_told(poll, url, nonce, said->0@));
        }
        match polled(said_view(said)) {
            PollNextView::Wait => {
                lemma_polls(expired, poll, get, url, nonce, (k + 1) as u64, most, r);
            },
            PollNextView::End(a) => {},
            PollNextView::Approved(token, name) => {
                let info = choose|info: Result<InfoResponse, Seq<char>>| #[trigger]
                    approved_as(get, url, token, name, info, r);
                assert(r.profile->0.token == token);
            },
        }
    }
}

/// An attempt pairs only where someone on the other side approved this very
/// request: it was sent there with its nonce and taken, and the token is the one
/// that came with the approval. An attempt that does not pair says why, and one
/// that is rejected was.
pub proof fn law_pairing_needs_approval<
    Q: Fn(&String, &String, &String) -> Result<(u16, String), String>,
    X: Fn(u64) -> bool,
    P: Fn(&String, &String) -> Option<PairStatus>,
    G: Fn(&String) -> Answer<InfoResponse>,
>(
    url: &str,
    client: &String,
    nonce: &String,
    most: u64,
    post: Q,
    expired: X,
    poll: P,
    get: G,
    r: PairAttempt,
)
    requires
        call_ensures(
            request_pair_blocking::<Q, X, P, G>,
            (url, client, nonce, most, post, expired, poll, get),
            r,
        ),
    ensures
        r@.profile matches Some(p) ==> {
            &&& r@.status == "approved"@
            &&& sync_client::normalized(url@) == Ok::<Seq<char>, Seq<char>>(p.url)
            &&& exists|u: String, c: String, n: String, code: u16, shown: String|
                {
                    &&& #[trigger] call_ensures(post, (&u, &c, &n), Ok((code, shown)))
                    &&& 200 <= code <= 299
                    &&& u@ == p.url + "/api/v1/pair-request"@
                    &&& c@ == client@
                    &&& n@ == nonce@
                }
            &&& exists|said: PairStatusView|
                {
                    &&& #[trigger] was_told(poll, p.url, nonce@, said)
                    &&& said.status == Some("approved"@)
                    &&& said.token == Some(p.token)
                }
        },
        r@.profile is None ==> r@.reason is Some && r@.status != "approved"@,
        r@.status == "rejected"@ ==> exists|target: Seq<char>, said: PairStatusView| #[trigger]
            was_told(poll, target, nonce@, said) && said.status == Some("rejected"@),
{
    reveal_strlit("approved");
    reveal_strlit("error");
    reveal_strlit("rejected");
    assert("approved"@[0] == 'a' && "error"@[0] == 'e' && "rejected"@[0] == 'r');
    if sync_client::normalized(url@) is Ok {
        let target = sync_client::normalized(url@)->Ok_0;
        let status = choose|status: Result<(u16, String), String>|
            {
                &&& #[trigger] sent(post, target, client@, nonce@, status)
                &&& match posted(status_view(status)) {
                    Some(a) => r@ == a,
                    None => polls_to(expired, poll, get, target, nonce@, 0, most, r@),
                }
            };
        if posted(status_view(status)) is None {
            lemma_polls(expired, poll, get, target, nonce@, 0, most, r@);
            let (u, c, n) = choose|u: String, c: String, n: String|
                {
                    &&& #[trigger] call_ensures(post, (&u, &c, &n), status)
                    &&& u@ == target + "/api/v1/pair-request"@
                    &&& c@ == client@
                    &&& n@ == nonce@
                };
            match status {
                Ok((code, shown)) => {
                    assert(call_ensures(post, (&u, &c, &n), Ok((code, shown))));
                },
                Err(_) => {},
            }
        }
    }
}

/// This side waits a minute and a half unless it is told otherwise, and never less
/// than five seconds nor more than five minutes.
pub proof fn law_waiting_is_bounded(n: u64)
    ensures
        wait_secs(None) == 90,
        5 <= n <= 300 ==> wait_secs(Some(n)) == n,
        n < 5 ==> wait_secs(Some(n)) == 5,
        n > 300 ==> wait_secs(Some(n)) == 300,
{
}

/// This side is called by its machine, else by its user, else as a computer; a
/// name of nothing but white space does not count for the machine.
pub proof fn law_this_side_has_a_name(host: Seq<char>, computer: Option<Seq<char>>, user: Option<Seq<char>>)
    ensures
        text::trimmed(host).len() > 0 ==> client_name_of(Some(host), computer, user) == host,
        text::trimmed(host).len() == 0 ==> client_name_of(Some(host), computer, user) == (match user {
            Some(u) => u,
            None => "Lanmark 电脑"@,
        }),
        computer matches Some(c) ==> text::trimmed(c).len() > 0 ==> client_name_of(None, computer, user) == c,
        computer is None ==> client_name_of(None, computer, user) == (match user {
            Some(u) => u,
            None => "Lanmark 电脑"@,
        }),
{
    lemma_blank(host);
    if computer is Some {
        lemma_blank(computer->0);
    }
}

proof fn lemma_blank(s: Seq<char>)
    ensures
        is_blank(s) <==> text::trimmed(s).len() == 0,
{
    text::law_trimming_takes_only_the_ends(s);
    let (i, j) = choose|i: int, j: int|
        {
            &&& 0 <= i <= j <= s.len()
            &&& text::trimmed(s) == #[trigger] s.subrange(i, j)
            &&& forall|k: int| 0 <= k < i || j <= k < s.len() ==> text::is_white(#[trigger] s[k])
            &&& i < j ==> !text::is_white(s[i]) && !text::is_white(s[j - 1])
        };
    if i < j {
        assert(!text::is_white(s[i]));
    } else {
        assert forall|k: int| 0 <= k < s.len() implies text::is_white(#[trigger] s[k]) by {}
    }
}

/// An attempt needs no more leave than this: the request is sent; only once it was
/// taken is this side asked about it, at the same server and with the same nonce;
/// and only once it was approved is the device asked who it is.
pub proof fn law_nothing_is_asked_before_the_request_is_taken<
    Q: Fn(&String, &String, &String) -> Result<(u16, String), String>,
    X: Fn(u64) -> bool,
    P: Fn(&String, &String) -> Option<PairStatus>,
    G: Fn(&String) -> Answer<InfoResponse>,
>(
    post: Q,
    expired: X,
    poll: P,
    get: G,
    url: Seq<char>,
    client: Seq<char>,
    nonce: Seq<char>,
    most: u64,
)
    requires
        forall|u: &String, c: &String, n: &String|
            u@ == url + "/api/v1/pair-request"@ && c@ == client && n@ == nonce ==> #[trigger] call_requires(
                post,
                (u, c, n),
            ),
        forall|k: u64| k < most ==> #[trigger] call_requires(expired, (k,)),
        forall|u: &String, n: &String|
            was_taken(post, url, client, nonce) && u@ == url + "/api/v1/pair-status"@ && n@ == nonce
                ==> #[trigger] call_requires(poll, (u, n)),
        forall|u: &String, said: PairStatusView|
            {
                &&& was_taken(post, url, client, nonce)
                &&& #[trigger] was_told(poll, url, nonce, said)
                &&& said.status == Some("approved"@)
                &&& said.token is Some
                &&& u@ == sync_client::info_url(url)
            } ==> #[trigger] call_requires(get, (u,)),
    ensures
        attempt_leave(post, expired, poll, get, url, client, nonce, most),
{
    assert forall|status: Result<(u16, String), String>| #[trigger]
        sent(post, url, client, nonce, status) && posted(status_view(status)) is None implies wait_leave(
        expired,
        poll,
        get,
        url,
        nonce,
        most,
    ) by {
        let (u, c, n) = choose|u: String, c: String, n: String|
            {
                &&& #[trigger] call_ensures(post, (&u, &c, &n), status)
                &&& u@ == url + "/api/v1/pair-request"@
                &&& c@ == client
                &&& n@ == nonce
            };
        match status {
            Ok((code, shown)) => {
                assert(call_ensures(post, (&u, &c, &n), Ok((code, shown))));
                assert(was_taken(post, url, client, nonce));
            },
            Err(_) => {},
        }
        assert forall|u: &String, said: Option<PairStatus>|
            {
                &&& #[trigger] asked_about(poll, url, nonce, said)
                &&& polled(said_view(said)) is Approved
                &&& u@ == sync_client::info_url(url)
            } implies #[trigger] call_requires(get, (u,)) by {
            let (a, b) = choose|a: String, b: String|
                {
                    &&& #[trigger] call_ensures(poll, (&a, &b), said)
                    &&& a@ == url + "/api/v1/pair-status"@
                    &&& b@ == nonce
                };
            assert(call_ensures(poll, (&a, &b), Some(said->0)));
            assert(was_told(poll, url, nonce, said->0@));
        }
    }
}

/// Whether the request was sent to the server, and the server took it.
pub open spec fn was_taken<Q: Fn(&String, &String, &String) -> Result<(u16, String), String>>(
    post: Q,
    url: Seq<char>,
    client: Seq<char>,
    nonce: Seq<char>,
) -> bool {
    exists|u: String, c: String, n: String, code: u16, shown: String|
        {
            &&& #[trigger] call_ensures(post, (&u, &c, &n), Ok((code, shown)))
            &&& 200 <= code <= 299
            &&& u@ == url + "/api/v1/pair-request"@
            &&& c@ == client
            &&& n@ == nonce
        }
}

} // verus!
