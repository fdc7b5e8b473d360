//! The rules of the sync server: pairing, access, what it hands out and how it
//! settles what clients push.
use vstd::prelude::*;

use crate::digest;
use crate::digest::sha256_digest;
use crate::fs_ops;
use crate::fs_ops::{content_hash, file_write, safe_join, FileWrite};
use crate::strmap::StrMap;
use crate::sync;
use crate::sync::{b64_decode, b64_encode, version_gt};
use crate::sync::{FileMeta, FileMetaView, PullFile, PullFileView, PushFile, PushFileView, PushResult, PushResultView};
use crate::text;
use crate::tree::{Entry, EntryKind};
use crate::text::{
    concat, concat3, contains_part, decimal_u64, digit_char, from_range, has_prefix, has_suffix,
    same, split_char, strip_end_char, strip_end_part, strip_prefix, to_chars, to_hex, trim,
};

verus! {

/// The type under which servers announce themselves.
pub const SERVICE_TYPE: &'static str = "_lanmark._tcp.local.";

/// The first port that a server tries.
pub const DEFAULT_PORT: u16 = 4180;

/// How many ports a server tries.
pub const MAX_PORT_TRIES: u16 = 60;

// ---------- configuration and secrets ----------

/// What a vault knows of sync: the name of the device, the code for pairing,
/// and the tokens that were given out.
#[derive(Debug)]
pub struct SyncConfig {
    pub device_name: String,
    pub pairing_code: String,
    pub tokens: Vec<String>,
}

pub struct SyncConfigView {
    pub device_name: Seq<char>,
    pub pairing_code: Seq<char>,
    pub tokens: Seq<Seq<char>>,
}

impl View for SyncConfig {
    type V = SyncConfigView;

    open spec fn view(&self) -> SyncConfigView {
        SyncConfigView {
            device_name: self.device_name@,
            pairing_code: self.pairing_code@,
            tokens: text::views(self.tokens@),
        }
    }
}

impl Default for SyncConfig {
    fn default() -> (r: Self)
        ensures
            r@.device_name.len() == 0,
            r@.pairing_code.len() == 0,
            r@.tokens.len() == 0,
    {
        SyncConfig { device_name: String::new(), pairing_code: String::new(), tokens: Vec::new() }
    }
}

impl SyncConfig {
    /// The configuration of a vault that has none yet.
    pub fn fresh(pairing_code: String) -> (r: Self)
        ensures
            r@ == (SyncConfigView {
                device_name: "Lanmark 手机"@,
                pairing_code: pairing_code@,
                tokens: Seq::empty(),
            }),
    {
        let r = SyncConfig { device_name: "Lanmark 手机".to_owned(), pairing_code, tokens: Vec::new() };
        assert(r@.tokens =~= Seq::empty());
        r
    }
}

/// The place of the configuration in the vault.
pub fn sync_config_path(vault: &str) -> (r: String)
    ensures
        r@ == fs_ops::join(fs_ops::join(vault@, ".lanmark"@), "sync.json"@),
{
    let meta = fs_ops::path_join(vault, ".lanmark");
    fs_ops::path_join(meta.as_str(), "sync.json")
}

/// The pairing code that a digest gives: eight decimal digits.
pub open spec fn code_digits(d: Seq<u8>) -> Seq<char> {
    Seq::new(8, |i: int| text::digit(d[i] as int % 10))
}

/// The pairing code that a digest gives.
pub fn pairing_code_of(d: &Vec<u8>) -> (r: String)
    requires
        d@.len() >= 8,
    ensures
        r@ == code_digits(d@),
{
    let mut r: String = String::new();
    let mut i: usize = 0;
    assert(r@ =~= code_digits(d@).take(0));
    while i < 8
        invariant
            i <= 8,
            d@.len() >= 8,
            r@ == code_digits(d@).take(i as int),
        decreases 8 - i,
    {
        r.push(digit_char(d[i] % 10));
        i = i + 1;
        assert(code_digits(d@).take(i as int) =~= code_digits(d@).take(i - 1).push(
            code_digits(d@)[i - 1],
        ));
    }
    assert(code_digits(d@).take(8) =~= code_digits(d@));
    r
}

/// A new pairing code from material that does not repeat.
pub fn gen_pairing_code(material: &str) -> (r: String)
    ensures
        r@ == code_digits(digest::sha256(vstd::utf8::encode_utf8(material@))),
        r@.len() == 8,
        forall|i: int| 0 <= i < 8 ==> text::is_digit(#[trigger] r@[i]),
{
    let d = sha256_digest(material.as_bytes());
    let r = pairing_code_of(&d);
    assert forall|i: int| 0 <= i < 8 implies text::is_digit(#[trigger] r@[i]) by {
        assert(r@[i] == text::digit(d@[i] as int % 10));
    }
    r
}

/// A new token from material that does not repeat.
pub fn gen_token(material: &str) -> (r: String)
    ensures
        r@ == text::hex(digest::sha256(vstd::utf8::encode_utf8(material@))),
        r@.len() == 64,
{
    content_hash(material.as_bytes())
}

/// A new number for one request from material that does not repeat: the first
/// 16 bytes of its digest in hexadecimal.
pub fn gen_nonce(material: &str) -> (r: String)
    ensures
        r@ == nonce_of(digest::sha256(vstd::utf8::encode_utf8(material@))),
        r@.len() == 32,
{
    let d = sha256_digest(material.as_bytes());
    nonce_text(&d)
}

/// The first 16 bytes of a digest in hexadecimal.
pub open spec fn nonce_of(d: Seq<u8>) -> Seq<char> {
    text::hex(d.take(16))
}

/// The first 16 bytes of a digest in hexadecimal.
pub fn nonce_text(d: &Vec<u8>) -> (r: String)
    requires
        d@.len() >= 16,
    ensures
        r@ == nonce_of(d@),
        r@.len() == 32,
{
    let head = vstd::slice::slice_subrange(d.as_slice(), 0, 16);
    proof {
        assert(head@ =~= d@.take(16));
        text::lemma_hex_len(d@.take(16));
    }
    to_hex(head)
}

/// Whether two strings are the same. The time it takes depends on their
/// lengths alone.
pub fn const_eq(a: &str, b: &str) -> (r: bool)
    ensures
        r == (a@ == b@),
{
    let x = a.as_bytes();
    let y = b.as_bytes();
    proof {
        vstd::utf8::encode_utf8_decode_utf8(a@);
        vstd::utf8::encode_utf8_decode_utf8(b@);
    }
    if x.len() != y.len() {
        return false;
    }
    let mut acc: u8 = 0;
    let mut i: usize = 0;
    while i < x.len()
        invariant
            i <= x.len(),
            x@.len() == y@.len(),
            (acc == 0) == (forall|j: int| 0 <= j < i ==> x@[j] == y@[j]),
        decreases x.len() - i,
    {
        let p: u8 = x[i];
        let q: u8 = y[i];
        assert((acc | (p ^ q) == 0) == (acc == 0 && p == q)) by (bit_vector);
        acc = acc | (p ^ q);
        i = i + 1;
    }
    proof {
        if acc == 0 {
            assert(x@ =~= y@);
        }
    }
    acc == 0
}

// ---------- access ----------

/// A refusal: an HTTP status and a sentence.
#[derive(Debug)]
pub struct Refusal {
    pub status: u16,
    pub message: String,
}

pub struct RefusalView {
    pub status: u16,
    pub message: Seq<char>,
}

impl View for Refusal {
    type V = RefusalView;

    open spec fn view(&self) -> RefusalView {
        RefusalView { status: self.status, message: self.message@ }
    }
}

/// A refusal.
fn refuse(status: u16, message: &str) -> (r: Refusal)
    ensures
        r@ == (RefusalView { status, message: message@ }),
{
    Refusal { status, message: message.to_owned() }
}

/// The token of an `authorization` header; empty where there is none.
pub open spec fn bearer_token(auth: Option<Seq<char>>) -> Seq<char> {
    match auth {
        Some(a) => if text::starts_with(a, "Bearer "@) {
            a.skip("Bearer "@.len() as int)
        } else {
            Seq::empty()
        },
        None => Seq::empty(),
    }
}

/// A configuration that may be missing, by its view.
pub open spec fn config_view(cfg: Option<&SyncConfig>) -> Option<SyncConfigView> {
    match cfg {
        Some(c) => Some(c@),
        None => None,
    }
}

/// Why a request is refused; nothing where it is let in. A request without
/// token is told to pair first. With one, a server without vault cannot say;
/// else the token must be one of those that were given out.
pub open spec fn access(auth: Option<Seq<char>>, cfg: Option<SyncConfigView>) -> Option<RefusalView> {
    let t = bearer_token(auth);
    if t.len() == 0 {
        Some(RefusalView { status: 401, message: "缺少 token（先 /api/v1/pair）"@ })
    } else {
        match cfg {
            None => Some(RefusalView { status: 409, message: "尚未打开 vault"@ }),
            Some(c) => if c.tokens.contains(t) {
                None
            } else {
                Some(
                    RefusalView {
                        status: 403,
                        message: "token 无效（服务器可能重启过或已切换笔记库，重新配对）"@,
                    },
                )
            },
        }
    }
}

/// Lets a request in if it carries a token that was given out.
pub fn check_token(auth: Option<&str>, cfg: Option<&SyncConfig>) -> (r: Result<(), Refusal>)
    ensures
        match access(text::opt_str(auth), config_view(cfg)) {
            None => r is Ok,
            Some(why) => r is Err && r->Err_0@ == why,
        },
{
    let token: String = match auth {
        Some(a) => match strip_prefix(a, "Bearer ") {
            Some(t) => t,
            None => String::new(),
        },
        None => String::new(),
    };
    assert(token@ =~= bearer_token(text::opt_str(auth)));
    if token.as_str().is_empty() {
        return Err(refuse(401, "缺少 token（先 /api/v1/pair）"));
    }
    match cfg {
        None => Err(refuse(409, "尚未打开 vault")),
        Some(c) => {
            let mut i: usize = 0;
            let ghost tokens = text::views(c.tokens@);
            while i < c.tokens.len()
                invariant
                    i <= c.tokens.len(),
                    tokens == text::views(c.tokens@),
                    c@.tokens == tokens,
                    token@ == bearer_token(text::opt_str(auth)),
                    token@.len() > 0,
                    cfg == Some(c),
                    forall|j: int| 0 <= j < i ==> tokens[j] != token@,
                decreases c.tokens.len() - i,
            {
                assert(tokens[i as int] == c.tokens@[i as int]@);
                if const_eq(c.tokens[i].as_str(), token.as_str()) {
                    return Ok(());
                }
                i = i + 1;
            }
            Err(refuse(403, "token 无效（服务器可能重启过或已切换笔记库，重新配对）"))
        },
    }
}

/// A token that was given out stays good as long as the vault keeps it.
pub proof fn law_issued_token_is_accepted(cfg: SyncConfigView, token: Seq<char>)
    requires
        token.len() > 0,
        cfg.tokens.contains(token),
    ensures
        access(Some("Bearer "@ + token), Some(cfg)) is None,
{
    let a = "Bearer "@ + token;
    assert(a.take("Bearer "@.len() as int) =~= "Bearer "@);
    assert(a.skip("Bearer "@.len() as int) =~= token);
}

/// Nothing but a token that was given out lets a request in.
pub proof fn law_only_issued_tokens_are_accepted(auth: Option<Seq<char>>, cfg: Option<SyncConfigView>)
    requires
        access(auth, cfg) is None,
    ensures
        cfg is Some,
        cfg->0.tokens.contains(bearer_token(auth)),
        auth is Some,
        auth->0 == "Bearer "@ + bearer_token(auth),
{
    let a = auth->0;
    assert(a =~= a.take("Bearer "@.len() as int) + a.skip("Bearer "@.len() as int));
}

// ---------- pairing ----------

/// How many wrong codes in a row lock the pairing.
pub const PAIR_MAX_FAILURES: u32 = 10;

/// For how long the pairing is locked, in nanoseconds.
pub const PAIR_LOCK_NS: u64 = 60_000_000_000;

/// The guard against guessing the code: the wrong codes since the last right
/// one, and until when the pairing is locked. Times are nanoseconds on a clock
/// that never goes back.
#[derive(Debug, Clone, Copy, PartialEq, Eq, Structural)]
pub struct PairGuard {
    pub failures: u32,
    pub locked_until: Option<u64>,
}

impl Default for PairGuard {
    fn default() -> (r: Self)
        ensures
            r == (PairGuard { failures: 0, locked_until: None }),
    {
        PairGuard { failures: 0, locked_until: None }
    }
}

/// What comes of an attempt to pair.
#[derive(Debug)]
pub enum PairVerdict {
    /// The pairing is locked for so many seconds.
    Locked(u64),
    /// The code is wrong.
    Wrong,
    /// The code is right: a token is due.
    Right,
}

impl PairGuard {
    /// The wrong codes stay below the limit.
    pub open spec fn wf(self) -> bool {
        self.failures < PAIR_MAX_FAILURES
    }

    /// Whether the pairing is locked at `now`.
    pub open spec fn is_locked(self, now: u64) -> bool {
        self.locked_until is Some && now <= self.locked_until->0
    }

    /// What comes of an attempt, and the guard after it.
    pub open spec fn after(self, now: u64, right: bool) -> (PairVerdict, PairGuard) {
        if self.is_locked(now) {
            (PairVerdict::Locked(((self.locked_until->0 - now) / 1_000_000_000) as u64), self)
        } else if right {
            (PairVerdict::Right, PairGuard { failures: 0, locked_until: None })
        } else if self.failures + 1 >= PAIR_MAX_FAILURES {
            (
                PairVerdict::Wrong,
                PairGuard { failures: 0, locked_until: Some((now + PAIR_LOCK_NS) as u64) },
            )
        } else {
            (
                PairVerdict::Wrong,
                PairGuard { failures: (self.failures + 1) as u32, locked_until: self.locked_until },
            )
        }
    }

    /// Judges an attempt to pair with `code` at `now`. While the pairing is
    /// locked no code is looked at; white space around the code is ignored.
    pub fn attempt(&mut self, now: u64, code: &str, pairing_code: &str) -> (r: PairVerdict)
        requires
            old(self).wf(),
            now + PAIR_LOCK_NS <= u64::MAX,
        ensures
            final(self).wf(),
            (r, *final(self)) == old(self).after(now, text::trimmed(code@) == pairing_code@),
    {
        if let Some(until) = self.locked_until {
            if now <= until {
                return PairVerdict::Locked((until - now) / 1_000_000_000);
            }
        }
        let given = trim(code);
        if same(given.as_str(), pairing_code) {
            self.failures = 0;
            self.locked_until = None;
            return PairVerdict::Right;
        }
        self.failures = self.failures + 1;
        if self.failures >= PAIR_MAX_FAILURES {
            self.locked_until = Some(now + PAIR_LOCK_NS);
            self.failures = 0;
        }
        PairVerdict::Wrong
    }
}

/// The answer to an attempt that fails.
pub open spec fn pair_refusal(v: PairVerdict) -> Option<RefusalView> {
    match v {
        PairVerdict::Locked(secs) => Some(
            RefusalView {
                status: 429,
                message: "配对尝试过于频繁，"@ + text::decimal(secs as nat) + " 后重试"@,
            },
        ),
        PairVerdict::Wrong => Some(RefusalView { status: 403, message: "配对码错误"@ }),
        PairVerdict::Right => None,
    }
}

/// The answer to an attempt to pair: a refusal, or the token, which the
/// configuration then holds.
pub fn pair(cfg: &mut SyncConfig, verdict: &PairVerdict, token: &str) -> (r: Result<(), Refusal>)
    ensures
        match pair_refusal(*verdict) {
            Some(why) => r is Err && r->Err_0@ == why && final(cfg)@ == old(cfg)@,
            None => r is Ok && final(cfg)@ == (SyncConfigView {
                tokens: old(cfg)@.tokens.push(token@),
                ..old(cfg)@
            }),
        },
{
    match verdict {
        PairVerdict::Locked(secs) => {
            let n = decimal_u64(*secs);
            let m = concat3("配对尝试过于频繁，", n.as_str(), " 后重试");
            Err(refuse(429, m.as_str()))
        },
        PairVerdict::Wrong => Err(refuse(403, "配对码错误")),
        PairVerdict::Right => {
            broadcast use text::lemma_views_push;
            cfg.tokens.push(token.to_owned());
            Ok(())
        },
    }
}

/// The guard after the attempts `codes`, each at its time.
pub open spec fn after_wrong(g: PairGuard, times: Seq<u64>) -> PairGuard
    decreases times.len(),
{
    if times.len() == 0 {
        g
    } else {
        after_wrong(g, times.drop_last()).after(times.last(), false).1
    }
}

proof fn lemma_wrong_codes_count(g: PairGuard, times: Seq<u64>)
    requires
        times.len() < PAIR_MAX_FAILURES,
        g.failures == 0,
        g.locked_until is None,
    ensures
        after_wrong(g, times) == (PairGuard { failures: times.len() as u32, locked_until: None }),
    decreases times.len(),
{
    if times.len() > 0 {
        lemma_wrong_codes_count(g, times.drop_last());
    }
}

/// Ten wrong codes in a row lock the pairing for a minute, in which even the
/// right code is refused.
pub proof fn law_ten_wrong_codes_lock(times: Seq<u64>, later: u64, right: bool)
    requires
        times.len() == PAIR_MAX_FAILURES,
        times.last() + PAIR_LOCK_NS <= u64::MAX,
        times.last() <= later <= times.last() + PAIR_LOCK_NS,
    ensures
        ({
            let g = after_wrong(PairGuard { failures: 0, locked_until: None }, times);
            g.is_locked(later) && g.after(later, right).0 is Locked
        }),
{
    lemma_wrong_codes_count(PairGuard { failures: 0, locked_until: None }, times.drop_last());
}

/// Fewer wrong codes lock nothing: the right code is then accepted.
pub proof fn law_few_wrong_codes_do_not_lock(times: Seq<u64>, later: u64)
    requires
        times.len() < PAIR_MAX_FAILURES,
    ensures
        after_wrong(PairGuard { failures: 0, locked_until: None }, times).after(later, true).0 is Right,
{
    lemma_wrong_codes_count(PairGuard { failures: 0, locked_until: None }, times);
}

// ---------- handing out ----------

/// The manifest as a map by path; of two entries with one path the later one
/// counts.
pub open spec fn by_path(s: Seq<FileMetaView>) -> Map<Seq<char>, FileMetaView>
    decreases s.len(),
{
    if s.len() == 0 {
        Map::empty()
    } else {
        by_path(s.drop_last()).insert(s.last().path, s.last())
    }
}

/// The manifest as a map by path.
pub fn manifest_map(list: &Vec<FileMeta>) -> (r: StrMap<FileMeta>)
    ensures
        r.wf(),
        r@ == by_path(text::views(list@)),
{
    let mut m: StrMap<FileMeta> = StrMap::new();
    let mut i: usize = 0;
    let ghost all = text::views(list@);
    assert(all.take(0) =~= Seq::empty());
    while i < list.len()
        invariant
            i <= list.len(),
            all == text::views(list@),
            m.wf(),
            m@ == by_path(all.take(i as int)),
        decreases list.len() - i,
    {
        proof {
            assert(all.take(i + 1).drop_last() =~= all.take(i as int));
            assert(all.take(i + 1).last() == list@[i as int]@);
        }
        m.insert(list[i].path.clone(), list[i].clone());
        i = i + 1;
    }
    assert(all.take(i as int) =~= all);
    m
}

/// What reading a file came to, by its views.
pub open spec fn read_view(r: Result<Vec<u8>, String>) -> Result<Seq<u8>, Seq<char>> {
    match r {
        Ok(b) => Ok(b@),
        Err(e) => Err(e@),
    }
}

/// Whether the file of a path is read: it is in the manifest, and it stays in
/// the vault.
pub open spec fn is_served(
    manifest: Map<Seq<char>, FileMetaView>,
    vault: Seq<char>,
    path: Seq<char>,
) -> bool {
    manifest.dom().contains(path) && fs_ops::safe_joined(vault, path) is Ok
}

/// What a pull hands out for a path: the file, or the reason why not. The hash
/// is that of the bytes that are sent.
pub open spec fn served(
    manifest: Map<Seq<char>, FileMetaView>,
    vault: Seq<char>,
    path: Seq<char>,
    read: Result<Seq<u8>, Seq<char>>,
) -> Result<PullFileView, Seq<char>> {
    if !manifest.dom().contains(path) {
        Err("不在服务器清单中"@)
    } else {
        match fs_ops::safe_joined(vault, path) {
            Err(e) => Err(e.message),
            Ok(_) => match read {
                Err(e) => Err("读取失败: "@ + e),
                Ok(b) => Ok(
                    PullFileView {
                        path,
                        kind: manifest[path].kind,
                        content_base64: digest::base64_encoded(b),
                        hash: fs_ops::hash_text(b),
                        mtime_ms: manifest[path].mtime_ms,
                    },
                ),
            },
        }
    }
}

/// The files that a pull hands out.
pub open spec fn served_files(s: Seq<Result<PullFileView, Seq<char>>>) -> Seq<PullFileView> {
    s.filter_map(
        |x: Result<PullFileView, Seq<char>>|
            match x {
                Ok(f) => Some(f),
                Err(_) => None,
            },
    )
}

/// The paths that a pull refuses, each with the reason.
pub open spec fn refused_paths(
    paths: Seq<Seq<char>>,
    s: Seq<Result<PullFileView, Seq<char>>>,
    n: int,
) -> Seq<(Seq<char>, Seq<char>)>
    decreases n,
{
    if n <= 0 {
        Seq::empty()
    } else {
        let head = refused_paths(paths, s, n - 1);
        match s[n - 1] {
            Ok(_) => head,
            Err(e) => head.push((paths[n - 1], e)),
        }
    }
}

/// Whether `items` is what a pull makes of `paths`, the files read by `read`.
pub open spec fn pulled_items<F: Fn(&String) -> Result<Vec<u8>, String>>(
    read: F,
    manifest: Map<Seq<char>, FileMetaView>,
    vault: Seq<char>,
    paths: Seq<Seq<char>>,
    items: Seq<Result<PullFileView, Seq<char>>>,
) -> bool {
    &&& items.len() == paths.len()
    &&& forall|i: int|
        0 <= i < paths.len() ==> pulled_item(read, manifest, vault, paths[i], #[trigger] items[i])
}

/// Whether a file that is handed out holds the given bytes: its text decodes to
/// them, and its hash is theirs.
pub open spec fn carries(f: PullFileView, bytes: Seq<u8>) -> bool {
    &&& digest::base64_decoded(f.content_base64) == digest::bytes_ok(bytes)
    &&& f.hash == fs_ops::hash_text(bytes)
}

/// Whether `item` is what a pull makes of one path.
pub open spec fn pulled_item<F: Fn(&String) -> Result<Vec<u8>, String>>(
    read: F,
    manifest: Map<Seq<char>, FileMetaView>,
    vault: Seq<char>,
    path: Seq<char>,
    item: Result<PullFileView, Seq<char>>,
) -> bool {
    exists|abs: String, got: Result<Vec<u8>, String>|
        {
            &&& #[trigger] read_at(read, abs, got, is_served(manifest, vault, path))
            &&& is_served(manifest, vault, path) ==> abs@ == fs_ops::safe_joined(vault, path)->Ok_0
            &&& item == served(manifest, vault, path, read_view(got))
            &&& item is Ok ==> carries(item->Ok_0, got->Ok_0@)
        }
}

/// Whether `got` is what reading `abs` gave, where it was read.
pub open spec fn read_at<F: Fn(&String) -> Result<Vec<u8>, String>>(
    read: F,
    abs: String,
    got: Result<Vec<u8>, String>,
    done: bool,
) -> bool {
    done ==> call_ensures(read, (&abs,), got)
}

/// What a pull makes of one path, by its views.
pub open spec fn item_view(r: Result<PullFile, String>) -> Result<PullFileView, Seq<char>> {
    match r {
        Ok(f) => Ok(f@),
        Err(e) => Err(e@),
    }
}

/// What a pull makes of one path. Only a file of the manifest is read.
pub fn pull_one<F: Fn(&String) -> Result<Vec<u8>, String>>(
    manifest: &StrMap<FileMeta>,
    vault: &str,
    path: &str,
    read: &F,
) -> (r: Result<PullFile, String>)
    requires
        manifest.wf(),
        forall|s: &String|
            is_served(manifest@, vault@, path@) && s@ == fs_ops::safe_joined(vault@, path@)->Ok_0
                ==> #[trigger] call_requires(*read, (s,)),
        forall|s: &String, b: Vec<u8>| #[trigger]
            call_ensures(*read, (s,), Ok::<Vec<u8>, String>(b)) ==> digest::base64_len(
                b@.len() as int,
            ) <= isize::MAX,
    ensures
        pulled_item(*read, manifest@, vault@, path@, item_view(r)),
{
    let ghost no_abs = vstd::pervasive::arbitrary::<String>();
    let ghost no_read = vstd::pervasive::arbitrary::<Result<Vec<u8>, String>>();
    let ghost on = is_served(manifest@, vault@, path@);
    let (kind, mtime_ms): (String, i64) = match manifest.get(path) {
        None => {
            assert(read_at(*read, no_abs, no_read, on));
            return Err("不在服务器清单中".to_owned());
        },
        Some(m) => (m.kind.clone(), m.mtime_ms),
    };
    let abs: String = match safe_join(vault, path) {
        Err(e) => {
            assert(read_at(*read, no_abs, no_read, on));
            return Err(e.message);
        },
        Ok(a) => a,
    };
    let got = read(&abs);
    let ghost seen = got;
    assert(read_at(*read, abs, seen, on));
    match got {
        Err(e) => Err(concat("读取失败: ", e.as_str())),
        Ok(bytes) => {
            assert(call_ensures(*read, (&abs,), Ok::<Vec<u8>, String>(bytes)));
            Ok(
                PullFile {
                    path: path.to_owned(),
                    kind,
                    content_base64: b64_encode(bytes.as_slice()),
                    hash: content_hash(bytes.as_slice()),
                    mtime_ms,
                },
            )
        },
    }
}

/// The files that a pull of `paths` may read: those of them that are in the
/// manifest and stay in the vault.
pub open spec fn pull_leave<F: Fn(&String) -> Result<Vec<u8>, String>>(
    read: F,
    manifest: Map<Seq<char>, FileMetaView>,
    vault: Seq<char>,
    paths: Seq<Seq<char>>,
) -> bool {
    forall|s: &String, i: int|
        {
            &&& 0 <= i < paths.len()
            &&& is_served(manifest, vault, #[trigger] paths[i])
            &&& s@ == fs_ops::safe_joined(vault, paths[i])->Ok_0
        } ==> #[trigger] call_requires(read, (s,))
}

/// Pairs of texts by their views.
pub open spec fn pair_views(s: Seq<(String, String)>) -> Seq<(Seq<char>, Seq<char>)> {
    s.map_values(|x: (String, String)| (x.0@, x.1@))
}

/// What a pull makes of `paths`: the files, and the paths that it refuses.
pub fn pull_blocking<F: Fn(&String) -> Result<Vec<u8>, String>>(
    manifest: &Vec<FileMeta>,
    vault: &str,
    paths: &Vec<String>,
    read: F,
) -> (r: sync::PullResponse)
    requires
        pull_leave(read, by_path(text::views(manifest@)), vault@, text::views(paths@)),
        forall|s: &String, b: Vec<u8>| #[trigger]
            call_ensures(read, (s,), Ok::<Vec<u8>, String>(b)) ==> digest::base64_len(
                b@.len() as int,
            ) <= isize::MAX,
    ensures
        exists|items: Seq<Result<PullFileView, Seq<char>>>|
            {
                &&& #[trigger] pulled_items(
                    read,
                    by_path(text::views(manifest@)),
                    vault@,
                    text::views(paths@),
                    items,
                )
                &&& text::views(r.files@) == served_files(items)
                &&& pair_views(r.missing@) == refused_paths(
                    text::views(paths@),
                    items,
                    items.len() as int,
                )
            },
{
    let map = manifest_map(manifest);
    let ghost all = text::views(paths@);
    let ghost f = |x: Result<PullFileView, Seq<char>>|
        match x {
            Ok(f) => Some(f),
            Err(_) => None,
        };
    let mut files: Vec<PullFile> = Vec::new();
    let mut missing: Vec<(String, String)> = Vec::new();
    let ghost mut items: Seq<Result<PullFileView, Seq<char>>> = Seq::empty();
    let mut i: usize = 0;
    proof {
        reveal(Seq::filter_map);
        assert(items.filter_map(f) =~= Seq::empty());
        assert(text::views(files@) =~= Seq::empty());
        assert(pair_views(missing@) =~= Seq::empty());
    }
    while i < paths.len()
        invariant
            i <= paths.len(),
            map.wf(),
            map@ == by_path(text::views(manifest@)),
            all == text::views(paths@),
            f == (|x: Result<PullFileView, Seq<char>>|
                match x {
                    Ok(f) => Some(f),
                    Err(_) => None,
                }),
            pull_leave(read, map@, vault@, all),
            forall|s: &String, b: Vec<u8>| #[trigger]
                call_ensures(read, (s,), Ok::<Vec<u8>, String>(b)) ==> digest::base64_len(
                    b@.len() as int,
                ) <= isize::MAX,
            items.len() == i,
            forall|j: int|
                0 <= j < i ==> pulled_item(read, map@, vault@, all[j], #[trigger] items[j]),
            text::views(files@) == items.filter_map(f),
            pair_views(missing@) == refused_paths(all, items, i as int),
        decreases paths.len() - i,
    {
        broadcast use text::lemma_views_push;
        let path = &paths[i];
        assert(all[i as int] == path@);
        let one = pull_one(&map, vault, path.as_str(), &read);
        let ghost before = items;
        let ghost lost = missing@;
        proof {
            items = items.push(item_view(one));
            items.lemma_filter_map_take_succ(f, i as int);
            assert(items.take(i as int) =~= before);
            assert(items.take(i + 1) =~= items);
            lemma_refused_prefix(all, before, items, i as int);
        }
        match one {
            Ok(file) => {
                files.push(file);
            },
            Err(why) => {
                let ghost w = why@;
                missing.push((path.clone(), why));
                assert(pair_views(missing@) =~= pair_views(lost).push((path@, w)));
            },
        }
        i = i + 1;
    }
    proof {
        assert(pulled_items(read, map@, vault@, all, items));
        assert(served_files(items) == items.filter_map(f));
    }
    sync::PullResponse { files, missing }
}

proof fn lemma_refused_prefix(
    paths: Seq<Seq<char>>,
    a: Seq<Result<PullFileView, Seq<char>>>,
    b: Seq<Result<PullFileView, Seq<char>>>,
    n: int,
)
    requires
        0 <= n <= a.len(),
        a.len() <= b.len(),
        forall|i: int| 0 <= i < n ==> a[i] == b[i],
    ensures
        refused_paths(paths, a, n) == refused_paths(paths, b, n),
    decreases n,
{
    if n > 0 {
        lemma_refused_prefix(paths, a, b, n - 1);
    }
}

// ---------- taking in ----------

/// Whether a segment of the path starts with a dot.
pub open spec fn in_dot_dir(path: Seq<char>) -> bool {
    exists|i: int|
        0 <= i < text::split(path, '/').len() && text::starts_with(
            #[trigger] text::split(path, '/')[i],
            "."@,
        )
}

/// Whether a segment of the path starts with a dot.
pub fn has_dot_segment(path: &str) -> (r: bool)
    ensures
        r == in_dot_dir(path@),
{
    let segs = split_char(path, '/');
    let ghost parts = text::split(path@, '/');
    let mut i: usize = 0;
    while i < segs.len()
        invariant
            i <= segs.len(),
            parts == text::views(segs@),
            parts == text::split(path@, '/'),
            forall|j: int| 0 <= j < i ==> !text::starts_with(#[trigger] parts[j], "."@),
        decreases segs.len() - i,
    {
        assert(parts[i as int] == segs@[i as int]@);
        if has_prefix(segs[i].as_str(), ".") {
            assert(text::starts_with(text::split(path@, '/')[i as int], "."@));
            return true;
        }
        i = i + 1;
    }
    false
}

/// Whether an attachment may lie at a path.
pub open spec fn is_asset_path(path: Seq<char>) -> bool {
    text::starts_with(path, "assets/"@) && !text::has_part(path, ".."@)
}

/// What is wrong with a pushed file whose content decoded to `decoded` and has
/// the hash `hash`; nothing where it may be written.
pub open spec fn push_fault(
    pf: PushFileView,
    decoded: Result<Seq<u8>, Seq<char>>,
    hash: Seq<char>,
) -> Option<Seq<char>> {
    if in_dot_dir(pf.path) {
        Some("点目录路径禁止同步"@)
    } else if decoded is Err {
        Some(decoded->Err_0)
    } else if hash != pf.hash {
        Some("内容 hash 不符（声称 "@ + pf.hash + " 实际 "@ + hash.take(16) + "）"@)
    } else if pf.kind == "note"@ {
        if text::ends_with(pf.path, ".md"@) {
            None
        } else {
            Some("笔记必须以 .md 结尾"@)
        }
    } else if pf.kind == "asset"@ {
        if is_asset_path(pf.path) {
            None
        } else {
            Some("附件路径非法: "@ + pf.path)
        }
    } else {
        Some("未知类型: "@ + pf.kind)
    }
}

/// What is wrong with a pushed file, given its decoded content and the hash of
/// that.
pub fn check_content(pf: &PushFile, bad: Option<&str>, hash: &str) -> (r: Option<String>)
    requires
        bad is None ==> hash@.len() >= 16,
    ensures
        text::opt_view(r) == push_fault(
            pf@,
            match bad {
                Some(e) => Err(e@),
                None => Ok(Seq::empty()),
            },
            hash@,
        ),
{
    if has_dot_segment(pf.path.as_str()) {
        return Some("点目录路径禁止同步".to_owned());
    }
    if let Some(e) = bad {
        return Some(e.to_owned());
    }
    if !same(hash, pf.hash.as_str()) {
        let v = to_chars(hash);
        let head = from_range(&v, 0, 16);
        assert(head@ =~= hash@.take(16));
        let mut m: String = concat3("内容 hash 不符（声称 ", pf.hash.as_str(), " 实际 ");
        m.append(head.as_str());
        m.append("）");
        return Some(m);
    }
    if same(pf.kind.as_str(), "note") {
        if has_suffix(pf.path.as_str(), ".md") {
            None
        } else {
            Some("笔记必须以 .md 结尾".to_owned())
        }
    } else if same(pf.kind.as_str(), "asset") {
        if has_prefix(pf.path.as_str(), "assets/") && !contains_part(pf.path.as_str(), "..") {
            None
        } else {
            Some(concat("附件路径非法: ", pf.path.as_str()))
        }
    } else {
        Some(concat("未知类型: ", pf.kind.as_str()))
    }
}

/// What a pushed file decodes to, the error told as a sentence.
pub open spec fn push_content(pf: PushFileView) -> Result<Seq<u8>, Seq<char>> {
    sync::b64_result(digest::base64_decoded(pf.content_base64))
}

/// The hash of what a pushed file decodes to.
pub open spec fn push_hash(pf: PushFileView) -> Seq<char> {
    match push_content(pf) {
        Ok(b) => fs_ops::hash_text(b),
        Err(_) => Seq::empty(),
    }
}

/// The content of a pushed file, or what is wrong with it: files of dot
/// directories are refused, the content must have the hash that the client
/// says, notes must end in `.md`, and attachments must lie in their directory.
pub fn pushed_content(pf: &PushFile) -> (r: Result<Vec<u8>, String>)
    ensures
        match push_fault(pf@, push_content(pf@), push_hash(pf@)) {
            Some(why) => r is Err && r->Err_0@ == why,
            None => r is Ok && Ok::<Seq<u8>, Seq<char>>(r->Ok_0@) == push_content(pf@),
        },
{
    match b64_decode(pf.content_base64.as_str()) {
        Err(e) => match check_content(pf, Some(e.as_str()), "") {
            Some(why) => Err(why),
            None => Err(e),
        },
        Ok(bytes) => {
            let hash = content_hash(bytes.as_slice());
            match check_content(pf, None, hash.as_str()) {
                Some(why) => Err(why),
                None => Ok(bytes),
            }
        },
    }
}

/// What lies at the path of a pushed file.
pub enum Current {
    /// No file.
    Nothing,
    /// A file that cannot be read, for the given reason.
    Unreadable(String),
    /// A file with the given content and modification time.
    Content(Vec<u8>, i64),
}

/// Who keeps the path when a file is pushed.
#[derive(Debug, Clone, Copy, PartialEq, Eq, Structural)]
pub enum Verdict {
    /// Nobody is in the way: the pushed file takes the path.
    Clean,
    /// The pushed file is newer: it takes the path, and the current version is
    /// kept as a conflict copy.
    IncomingWins,
    /// The pushed file is not newer: it is kept as a conflict copy, and the
    /// current version keeps the path.
    IncomingLoses,
}

/// The current version at a path.
pub open spec fn current_version(bytes: Seq<u8>, mtime_ms: i64) -> (i64, i64, Seq<char>) {
    (mtime_ms, bytes.len() as i64, fs_ops::hash_text(bytes))
}

/// Who keeps the path. There is nothing to settle where no file is in the way
/// or the client has seen the current version; else the newer version wins.
pub open spec fn verdict_of(pf: PushFileView, incoming_len: nat, bytes: Seq<u8>, mtime_ms: i64) -> Verdict {
    if fs_ops::hash_text(bytes) == pf.base_hash {
        Verdict::Clean
    } else if sync::newer(
        (pf.mtime_ms, incoming_len as i64, pf.hash),
        current_version(bytes, mtime_ms),
    ) {
        Verdict::IncomingWins
    } else {
        Verdict::IncomingLoses
    }
}

/// Settles who keeps the path of a pushed file.
pub fn arbitrate_existing(pf: &PushFile, incoming: &Vec<u8>, current: &Current) -> (r: Result<
    Verdict,
    String,
>)
    ensures
        match *current {
            Current::Nothing => r == Ok::<Verdict, String>(Verdict::Clean),
            Current::Unreadable(e) => r is Err && r->Err_0@ == "读取当前版本失败: "@ + e@,
            Current::Content(bytes, mtime_ms) => r == Ok::<Verdict, String>(
                verdict_of(pf@, incoming@.len(), bytes@, mtime_ms),
            ),
        },
{
    match current {
        Current::Nothing => Ok(Verdict::Clean),
        Current::Unreadable(e) => Err(concat("读取当前版本失败: ", e.as_str())),
        Current::Content(bytes, mtime_ms) => {
            let hash = content_hash(bytes.as_slice());
            if same(hash.as_str(), pf.base_hash.as_str()) {
                Ok(Verdict::Clean)
            } else if version_gt(
                (pf.mtime_ms, incoming.len() as i64, pf.hash.as_str()),
                (*mtime_ms, bytes.len() as i64, hash.as_str()),
            ) {
                Ok(Verdict::IncomingWins)
            } else {
                Ok(Verdict::IncomingLoses)
            }
        },
    }
}

/// What became of a pushed file: where the version that lost was kept, and the
/// hash under the path afterwards.
#[derive(Debug)]
pub struct Landed {
    pub conflict_saved_as: Option<String>,
    pub server_hash: String,
}

/// What to do with a pushed file once the version that lost is kept.
pub enum PushNext {
    /// Write it to its path; a conflict copy may lie where the text says.
    Write(Option<String>),
    /// Leave the path as it is.
    Stop(Landed),
}

/// The hash of the current version.
pub open spec fn current_hash(current: Current) -> Seq<char> {
    match current {
        Current::Content(bytes, _) => fs_ops::hash_text(bytes@),
        _ => Seq::empty(),
    }
}

/// What to do once the version that lost was kept under `saved`, or could not
/// be. A pushed file that lost is written only where it is what lies there.
pub fn push_next(
    pf: &PushFile,
    verdict: Verdict,
    current: &Current,
    saved: Option<Result<String, String>>,
) -> (r: Result<PushNext, String>)
    requires
        verdict != Verdict::Clean ==> saved is Some,
    ensures
        match verdict {
            Verdict::Clean => r == Ok::<PushNext, String>(PushNext::Write(None)),
            _ => match saved->0 {
                Err(e) => r is Err && r->Err_0@ == "冲突副本落盘失败: "@ + e@,
                Ok(copy) => if verdict == Verdict::IncomingWins || current_hash(*current)
                    == pf@.hash {
                    r == Ok::<PushNext, String>(PushNext::Write(Some(copy)))
                } else {
                    &&& r is Ok
                    &&& r->Ok_0 is Stop
                    &&& r->Ok_0->Stop_0.conflict_saved_as == Some(copy)
                    &&& r->Ok_0->Stop_0.server_hash@ == current_hash(*current)
                },
            },
        },
{
    match verdict {
        Verdict::Clean => Ok(PushNext::Write(None)),
        _ => match saved {
            None => Ok(PushNext::Write(None)),
            Some(Err(e)) => Err(concat("冲突副本落盘失败: ", e.as_str())),
            Some(Ok(copy)) => {
                let hash: String = match current {
                    Current::Content(bytes, _) => content_hash(bytes.as_slice()),
                    _ => String::new(),
                };
                assert(hash@ =~= current_hash(*current));
                if matches!(verdict, Verdict::IncomingWins) || same(hash.as_str(), pf.hash.as_str()) {
                    Ok(PushNext::Write(Some(copy)))
                } else {
                    Ok(PushNext::Stop(Landed { conflict_saved_as: Some(copy), server_hash: hash }))
                }
            },
        },
    }
}

/// Why a pushed file could not be written.
pub enum WriteFault {
    /// Its path does not stay in the vault.
    Path(String),
    /// Its directory could not be made.
    Dir(String),
    /// The note could not be written.
    Note(String),
    /// The attachment could not be written.
    Asset(String),
}

/// The sentence for a file that could not be written.
pub open spec fn write_fault(f: WriteFault) -> Seq<char> {
    match f {
        WriteFault::Path(e) => e@,
        WriteFault::Dir(e) => "创建目录失败: "@ + e@,
        WriteFault::Note(e) => "写入失败: "@ + e@,
        WriteFault::Asset(e) => "附件写入失败: "@ + e@,
    }
}

/// What became of a pushed file that was written, or could not be.
pub fn push_written(pf: &PushFile, saved: Option<String>, fault: Option<WriteFault>) -> (r: Result<
    Landed,
    String,
>)
    ensures
        match fault {
            Some(f) => r is Err && r->Err_0@ == write_fault(f),
            None => r is Ok && r->Ok_0.conflict_saved_as == saved && r->Ok_0.server_hash@ == pf@.hash,
        },
{
    match fault {
        Some(WriteFault::Path(e)) => Err(e),
        Some(WriteFault::Dir(e)) => Err(concat("创建目录失败: ", e.as_str())),
        Some(WriteFault::Note(e)) => Err(concat("写入失败: ", e.as_str())),
        Some(WriteFault::Asset(e)) => Err(concat("附件写入失败: ", e.as_str())),
        None => Ok(Landed { conflict_saved_as: saved, server_hash: pf.hash.clone() }),
    }
}

/// Whether `current` is what lies at a path.
pub open spec fn looked<L: Fn(&String) -> Current>(look: L, path: Seq<char>, current: Current) -> bool {
    exists|p: String| #[trigger] call_ensures(look, (&p,), current) && p@ == path
}

/// Whether `saved` is what keeping the bytes as a conflict copy of the path came
/// to.
pub open spec fn kept_as<K: Fn(&String, &String, &Vec<u8>) -> Result<String, String>>(
    keep: K,
    pf: PushFileView,
    bytes: Seq<u8>,
    saved: Result<String, String>,
) -> bool {
    exists|p: String, k: String, b: Vec<u8>|
        {
            &&& #[trigger] call_ensures(keep, (&p, &k, &b), saved)
            &&& p@ == pf.path
            &&& k@ == pf.kind
            &&& b@ == bytes
        }
}

/// What is written for a pushed file with the content `bytes`. Its path is back.
pub open spec fn pushed_write(pf: PushFileView, bytes: Seq<u8>, now_ms: i64) -> fs_ops::FileWriteView {
    fs_ops::file_write_of(pf.path, pf.kind, bytes, pf.mtime_ms, now_ms, true)
}

/// Whether `fault` is what writing the file came to.
pub open spec fn written_as<W: Fn(&FileWrite) -> Option<WriteFault>>(
    write: W,
    what: fs_ops::FileWriteView,
    fault: Option<WriteFault>,
) -> bool {
    exists|x: FileWrite| #[trigger] call_ensures(write, (&x,), fault) && x@ == what
}

/// The version that loses its place where a pushed file meets what lies at its
/// path, if one does.
pub open spec fn loser_of(pf: PushFileView, bytes: Seq<u8>, current: Current) -> Option<Seq<u8>> {
    match current {
        Current::Content(old, mtime_ms) => match verdict_of(pf, bytes.len(), old@, mtime_ms) {
            Verdict::Clean => None,
            Verdict::IncomingWins => Some(old@),
            Verdict::IncomingLoses => Some(bytes),
        },
        _ => None,
    }
}

/// Whether a pushed file takes its path: nothing lies there, the client has
/// seen what does, it is newer, or it is what lies there.
pub open spec fn takes_path(pf: PushFileView, bytes: Seq<u8>, current: Current) -> bool {
    match current {
        Current::Nothing => true,
        Current::Unreadable(_) => false,
        Current::Content(old, mtime_ms) => verdict_of(pf, bytes.len(), old@, mtime_ms)
            != Verdict::IncomingLoses || fs_ops::hash_text(old@) == pf.hash,
    }
}

/// Whether a pushed file drives out what lies at its path: that is a version
/// which the client has not seen, and an older one.
pub open spec fn drives_out(pf: PushFileView, bytes: Seq<u8>, current: Current) -> bool {
    match current {
        Current::Content(old, mtime_ms) => verdict_of(pf, bytes.len(), old@, mtime_ms) == Verdict::IncomingWins,
        _ => false,
    }
}

/// Whether what lay at the path was removed, or was to be.
pub open spec fn removed<R: Fn(&String)>(remove: R, path: Seq<char>) -> bool {
    exists|p: String| #[trigger] call_ensures(remove, (&p,), ()) && p@ == path
}

/// The calls that taking in a pushed file with the content `bytes` may make.
/// What lies at its path may be looked at. A version may be kept as a copy only
/// where it loses its place. What lies at the path may be removed only where the
/// pushed file drives it out, and only once it is kept. The path may be written
/// only where the pushed file takes it, once the version that loses is kept and
/// the one that is driven out is removed.
pub open spec fn push_leave<
    L: Fn(&String) -> Current,
    K: Fn(&String, &String, &Vec<u8>) -> Result<String, String>,
    R: Fn(&String),
    W: Fn(&FileWrite) -> Option<WriteFault>,
>(look: L, keep: K, remove: R, write: W, pf: PushFileView, bytes: Seq<u8>, now_ms: i64) -> bool {
    &&& forall|p: &String| p@ == pf.path ==> #[trigger] call_requires(look, (p,))
    &&& forall|p: &String, k: &String, b: &Vec<u8>, current: Current|
        {
            &&& p@ == pf.path
            &&& k@ == pf.kind
            &&& #[trigger] looked(look, pf.path, current)
            &&& loser_of(pf, bytes, current) == Some(b@)
        } ==> #[trigger] call_requires(keep, (p, k, b))
    &&& forall|p: &String, current: Current|
        {
            &&& p@ == pf.path
            &&& #[trigger] looked(look, pf.path, current)
            &&& drives_out(pf, bytes, current)
            &&& loser_kept(keep, pf, loser_of(pf, bytes, current))
        } ==> #[trigger] call_requires(remove, (p,))
    &&& forall|x: &FileWrite, current: Current|
        {
            &&& x@ == pushed_write(pf, bytes, now_ms)
            &&& #[trigger] looked(look, pf.path, current)
            &&& takes_path(pf, bytes, current)
            &&& loser_kept(keep, pf, loser_of(pf, bytes, current))
            &&& drives_out(pf, bytes, current) ==> removed(remove, pf.path)
        } ==> #[trigger] call_requires(write, (x,))
}

/// Whether the version that loses its place, if one does, is kept as a copy.
pub open spec fn loser_kept<K: Fn(&String, &String, &Vec<u8>) -> Result<String, String>>(
    keep: K,
    pf: PushFileView,
    loser: Option<Seq<u8>>,
) -> bool {
    loser is None || exists|copy: String| #[trigger] kept_as(keep, pf, loser->0, Ok(copy))
}

/// Whether `r` is what comes of writing `bytes` to the path, with a conflict
/// copy at `saved`.
pub open spec fn write_outcome<W: Fn(&FileWrite) -> Option<WriteFault>>(
    write: W,
    pf: PushFileView,
    bytes: Seq<u8>,
    now_ms: i64,
    saved: Option<Seq<char>>,
    r: Result<Landed, String>,
) -> bool {
    exists|fault: Option<WriteFault>|
        {
            &&& #[trigger] written_as(write, pushed_write(pf, bytes, now_ms), fault)
            &&& match fault {
                Some(f) => r is Err && r->Err_0@ == write_fault(f),
                None => {
                    &&& r is Ok
                    &&& text::opt_view(r->Ok_0.conflict_saved_as) == saved
                    &&& r->Ok_0.server_hash@ == pf.hash
                },
            }
        }
}

/// Whether `r` is what comes of a pushed file with the content `bytes` where
/// `current` lies at its path. A version that loses its place is kept first, and
/// one that is driven out is removed before the path is written.
pub open spec fn settle_outcome<
    K: Fn(&String, &String, &Vec<u8>) -> Result<String, String>,
    R: Fn(&String),
    W: Fn(&FileWrite) -> Option<WriteFault>,
>(
    keep: K,
    remove: R,
    write: W,
    pf: PushFileView,
    bytes: Seq<u8>,
    now_ms: i64,
    current: Current,
    r: Result<Landed, String>,
) -> bool {
    if let Current::Unreadable(e) = current {
        r is Err && r->Err_0@ == "读取当前版本失败: "@ + e@
    } else {
        match loser_of(pf, bytes, current) {
            None => write_outcome(write, pf, bytes, now_ms, None, r),
            Some(loser) => exists|saved: Result<String, String>|
                {
                    &&& #[trigger] kept_as(keep, pf, loser, saved)
                    &&& match saved {
                        Err(e) => r is Err && r->Err_0@ == "冲突副本落盘失败: "@ + e@,
                        Ok(copy) => if takes_path(pf, bytes, current) {
                            &&& drives_out(pf, bytes, current) ==> removed(remove, pf.path)
                            &&& write_outcome(write, pf, bytes, now_ms, Some(copy@), r)
                        } else {
                            &&& r is Ok
                            &&& text::opt_view(r->Ok_0.conflict_saved_as) == Some(copy@)
                            &&& r->Ok_0.server_hash@ == current_hash(current)
                        },
                    }
                },
        }
    }
}

/// Takes in one pushed file. What is wrong with it refuses it, and then nothing
/// is looked at, kept or written. Else `look` says what lies at its path; where
/// the client has not seen that, the newer version keeps the path and `keep`
/// stores the other as a conflict copy. `remove` then removes an older version
/// from the path, as far as it can, and `write` writes the file, unless it lost.
pub fn write_pushed_file<
    L: Fn(&String) -> Current,
    K: Fn(&String, &String, &Vec<u8>) -> Result<String, String>,
    R: Fn(&String),
    W: Fn(&FileWrite) -> Option<WriteFault>,
>(pf: &PushFile, now_ms: i64, look: L, keep: K, remove: R, write: W) -> (r: Result<Landed, String>)
    requires
        push_fault(pf@, push_content(pf@), push_hash(pf@)) is None ==> push_leave(
            look,
            keep,
            remove,
            write,
            pf@,
            push_content(pf@)->Ok_0,
            now_ms,
        ),
    ensures
        match push_fault(pf@, push_content(pf@), push_hash(pf@)) {
            Some(why) => r is Err && r->Err_0@ == why,
            None => exists|current: Current| #[trigger]
                looked(look, pf@.path, current) && settle_outcome(
                    keep,
                    remove,
                    write,
                    pf@,
                    push_content(pf@)->Ok_0,
                    now_ms,
                    current,
                    r,
                ),
        },
{
    let bytes: Vec<u8> = match pushed_content(pf) {
        Err(why) => {
            return Err(why);
        },
        Ok(b) => b,
    };
    let current = look(&pf.path);
    assert(call_ensures(look, (&pf.path,), current));
    assert(looked(look, pf@.path, current));
    let verdict: Verdict = match arbitrate_existing(pf, &bytes, &current) {
        Err(e) => {
            return Err(e);
        },
        Ok(v) => v,
    };
    let saved: Option<Result<String, String>> = match verdict {
        Verdict::Clean => None,
        Verdict::IncomingWins => match &current {
            Current::Content(old, _) => {
                assert(loser_of(pf@, bytes@, current) == Some(old@));
                let k = keep(&pf.path, &pf.kind, old);
                assert(call_ensures(keep, (&pf.path, &pf.kind, old), k));
                assert(kept_as(keep, pf@, old@, k));
                Some(k)
            },
            _ => None,
        },
        Verdict::IncomingLoses => {
            assert(loser_of(pf@, bytes@, current) == Some(bytes@));
            let k = keep(&pf.path, &pf.kind, &bytes);
            assert(call_ensures(keep, (&pf.path, &pf.kind, &bytes), k));
            assert(kept_as(keep, pf@, bytes@, k));
            Some(k)
        },
    };
    let ghost kept = saved;
    assert(kept is None <==> loser_of(pf@, bytes@, current) is None);
    assert(kept is Some ==> kept_as(keep, pf@, loser_of(pf@, bytes@, current)->0, kept->0));
    let next: PushNext = match push_next(pf, verdict, &current, saved) {
        Err(e) => {
            assert(kept->0 is Err);
            return Err(e);
        },
        Ok(n) => n,
    };
    match next {
        PushNext::Stop(l) => {
            assert(kept->0 is Ok);
            Ok(l)
        },
        PushNext::Write(copy) => {
            assert(kept is Some ==> kept->0 is Ok && copy == Some(kept->0->Ok_0));
            assert(kept is Some ==> kept_as(
                keep,
                pf@,
                loser_of(pf@, bytes@, current)->0,
                Ok(kept->0->Ok_0),
            ));
            assert(takes_path(pf@, bytes@, current));
            if matches!(verdict, Verdict::IncomingWins) {
                assert(drives_out(pf@, bytes@, current));
                remove(&pf.path);
                assert(call_ensures(remove, (&pf.path,), ()));
                assert(removed(remove, pf@.path));
            }
            let what = file_write(pf.path.as_str(), pf.kind.as_str(), &bytes, pf.mtime_ms, now_ms, true);
            let fault = write(&what);
            assert(call_ensures(write, (&what,), fault));
            assert(written_as(write, pushed_write(pf@, bytes@, now_ms), fault));
            let r = push_written(pf, copy, fault);
            assert(write_outcome(write, pf@, bytes@, now_ms, text::opt_view(copy), r));
            r
        },
    }
}

/// The answer for one pushed file.
pub open spec fn push_answer(path: Seq<char>, r: Result<Landed, String>) -> PushResultView {
    match r {
        Ok(l) => PushResultView {
            path,
            ok: true,
            error: None,
            conflict_saved_as: text::opt_view(l.conflict_saved_as),
            server_hash: Some(l.server_hash@),
        },
        Err(e) => PushResultView {
            path,
            ok: false,
            error: Some(e@),
            conflict_saved_as: None,
            server_hash: None,
        },
    }
}

/// The answer for one pushed file.
pub fn push_result(path: &str, r: Result<Landed, String>) -> (a: PushResult)
    ensures
        a@ == push_answer(path@, r),
{
    match r {
        Ok(l) => PushResult {
            path: path.to_owned(),
            ok: true,
            error: None,
            conflict_saved_as: l.conflict_saved_as,
            server_hash: Some(l.server_hash),
        },
        Err(e) => PushResult {
            path: path.to_owned(),
            ok: false,
            error: Some(e),
            conflict_saved_as: None,
            server_hash: None,
        },
    }
}

/// Whether `a` is the answer for one file, settled and written by `write`.
pub open spec fn push_answered<F: Fn(&PushFile) -> Result<Landed, String>>(
    write: F,
    file: PushFile,
    a: PushResultView,
) -> bool {
    exists|l: Result<Landed, String>| #[trigger]
        call_ensures(write, (&file,), l) && a == push_answer(file.path@, l)
}

/// The answers to a push: one for each file, in order. `write` settles and
/// writes one file.
pub fn push_blocking<F: Fn(&PushFile) -> Result<Landed, String>>(files: &Vec<PushFile>, write: F) -> (r: Vec<
    PushResult,
>)
    requires
        forall|f: &PushFile| files@.contains(*f) ==> #[trigger] call_requires(write, (f,)),
    ensures
        r@.len() == files@.len(),
        forall|i: int|
            0 <= i < r@.len() ==> push_answered(write, files@[i], (#[trigger] r@[i])@),
{
    let mut out: Vec<PushResult> = Vec::new();
    let mut i: usize = 0;
    while i < files.len()
        invariant
            i <= files.len(),
            out@.len() == i,
            forall|f: &PushFile| files@.contains(*f) ==> #[trigger] call_requires(write, (f,)),
            forall|j: int|
                0 <= j < i ==> push_answered(write, files@[j], (#[trigger] out@[j])@),
        decreases files.len() - i,
    {
        assert(files@.contains(files@[i as int]));
        let l = write(&files[i]);
        let ghost l0 = l;
        let a = push_result(files[i].path.as_str(), l);
        assert(call_ensures(write, (&files@[i as int],), l0));
        assert(push_answered(write, files@[i as int], a@));
        out.push(a);
        i = i + 1;
    }
    out
}

/// Whether the bytes were kept as the conflict copy `copy` of the path.
pub open spec fn kept_at<K: Fn(&String, &String, &Vec<u8>) -> Result<String, String>>(
    keep: K,
    pf: PushFileView,
    bytes: Seq<u8>,
    copy: Seq<char>,
) -> bool {
    exists|saved: String| #[trigger] kept_as(keep, pf, bytes, Ok(saved)) && saved@ == copy
}

/// A push that is accepted loses no version that the client has not seen: where
/// the current version is another than the one that the client knows, the
/// version that loses is kept as a conflict copy, which the answer names. The
/// pushed version takes the path where it is newer; else the current version
/// keeps it, and the answer gives its hash.
pub proof fn law_push_keeps_both_versions<
    K: Fn(&String, &String, &Vec<u8>) -> Result<String, String>,
    R: Fn(&String),
    W: Fn(&FileWrite) -> Option<WriteFault>,
>(
    keep: K,
    remove: R,
    write: W,
    pf: PushFileView,
    bytes: Seq<u8>,
    now_ms: i64,
    old: Vec<u8>,
    mtime_ms: i64,
    r: Result<Landed, String>,
)
    requires
        settle_outcome(keep, remove, write, pf, bytes, now_ms, Current::Content(old, mtime_ms), r),
        r is Ok,
        fs_ops::hash_text(old@) != pf.base_hash,
    ensures
        r->Ok_0.conflict_saved_as is Some,
        ({
            let wins = verdict_of(pf, bytes.len(), old@, mtime_ms) == Verdict::IncomingWins;
            let copy = r->Ok_0.conflict_saved_as->0@;
            &&& kept_at(
                keep,
                pf,
                if wins {
                    old@
                } else {
                    bytes
                },
                copy,
            )
            &&& wins ==> written_as(write, pushed_write(pf, bytes, now_ms), None) && r->Ok_0.server_hash@
                == pf.hash
            &&& !wins && fs_ops::hash_text(old@) != pf.hash ==> r->Ok_0.server_hash@
                == fs_ops::hash_text(old@)
        }),
{
    let loser = loser_of(pf, bytes, Current::Content(old, mtime_ms))->0;
    let saved = choose|saved: Result<String, String>|
        {
            &&& #[trigger] kept_as(keep, pf, loser, saved)
            &&& match saved {
                Err(e) => r is Err && r->Err_0@ == "冲突副本落盘失败: "@ + e@,
                Ok(copy) => if takes_path(pf, bytes, Current::Content(old, mtime_ms)) {
                    &&& drives_out(pf, bytes, Current::Content(old, mtime_ms)) ==> removed(remove, pf.path)
                    &&& write_outcome(write, pf, bytes, now_ms, Some(copy@), r)
                } else {
                    &&& r is Ok
                    &&& text::opt_view(r->Ok_0.conflict_saved_as) == Some(copy@)
                    &&& r->Ok_0.server_hash@ == current_hash(Current::Content(old, mtime_ms))
                },
            }
        };
    assert(saved is Ok);
    assert(kept_as(keep, pf, loser, Ok(saved->Ok_0)));
}

/// After a push that is accepted the path holds the version whose hash the
/// answer gives: the pushed one where it was written, else the one that lay
/// there.
pub proof fn law_accepted_push_gives_the_hash_of_its_path<
    K: Fn(&String, &String, &Vec<u8>) -> Result<String, String>,
    R: Fn(&String),
    W: Fn(&FileWrite) -> Option<WriteFault>,
>(
    keep: K,
    remove: R,
    write: W,
    pf: PushFileView,
    bytes: Seq<u8>,
    now_ms: i64,
    current: Current,
    r: Result<Landed, String>,
)
    requires
        push_fault(pf, Ok(bytes), fs_ops::hash_text(bytes)) is None,
        settle_outcome(keep, remove, write, pf, bytes, now_ms, current, r),
        r is Ok,
    ensures
        takes_path(pf, bytes, current) ==> written_as(write, pushed_write(pf, bytes, now_ms), None)
            && r->Ok_0.server_hash@ == fs_ops::hash_text(bytes),
        !takes_path(pf, bytes, current) ==> r->Ok_0.server_hash@ == current_hash(current)
            && loser_of(pf, bytes, current) == Some(bytes),
{
}

/// A push of what the server has since changed is settled alike whichever side
/// is asked: it wins exactly if its version is newer than the current one.
pub proof fn law_newer_push_wins(
    pf: PushFileView,
    incoming_len: nat,
    bytes: Seq<u8>,
    mtime_ms: i64,
)
    requires
        fs_ops::hash_text(bytes) != pf.base_hash,
    ensures
        verdict_of(pf, incoming_len, bytes, mtime_ms) == Verdict::IncomingWins <==> sync::newer(
            (pf.mtime_ms, incoming_len as i64, pf.hash),
            current_version(bytes, mtime_ms),
        ),
        verdict_of(pf, incoming_len, bytes, mtime_ms) != Verdict::Clean,
{
}

// ---------- deleting ----------

/// The answer for one deleted path: dot directories are refused; else the
/// place in the trash, or why not.
pub open spec fn delete_answer(path: Seq<char>, r: Result<Seq<char>, Seq<char>>) -> PushResultView {
    PushResultView {
        path,
        ok: r is Ok,
        error: match r {
            Ok(_) => None,
            Err(e) => Some(e),
        },
        conflict_saved_as: match r {
            Ok(t) => Some(t),
            Err(_) => None,
        },
        server_hash: None,
    }
}

/// What deleting came to, by its views.
pub open spec fn delete_view(r: Result<String, String>) -> Result<Seq<char>, Seq<char>> {
    match r {
        Ok(t) => Ok(t@),
        Err(e) => Err(e@),
    }
}

/// Whether `a` is the answer for one path that is to be deleted.
pub open spec fn delete_answered<F: Fn(&String) -> Result<String, String>>(
    delete: F,
    path: String,
    a: PushResultView,
) -> bool {
    if in_dot_dir(path@) {
        a == delete_answer(path@, Err("点目录路径禁止删除"@))
    } else {
        exists|d: Result<String, String>| #[trigger]
            call_ensures(delete, (&path,), d) && a == delete_answer(path@, delete_view(d))
    }
}

/// The answers to a request to delete `paths`: one for each, in order.
/// `delete` moves one entry to the trash; it is not asked for dot directories.
pub fn delete_blocking<F: Fn(&String) -> Result<String, String>>(paths: &Vec<String>, delete: F) -> (r: Vec<
    PushResult,
>)
    requires
        forall|p: &String|
            paths@.contains(*p) && !in_dot_dir(p@) ==> #[trigger] call_requires(delete, (p,)),
    ensures
        r@.len() == paths@.len(),
        forall|i: int|
            0 <= i < r@.len() ==> delete_answered(delete, paths@[i], (#[trigger] r@[i])@),
{
    let mut out: Vec<PushResult> = Vec::new();
    let mut i: usize = 0;
    while i < paths.len()
        invariant
            i <= paths.len(),
            out@.len() == i,
            forall|p: &String|
                paths@.contains(*p) && !in_dot_dir(p@) ==> #[trigger] call_requires(delete, (p,)),
            forall|j: int|
                0 <= j < i ==> delete_answered(delete, paths@[j], (#[trigger] out@[j])@),
        decreases paths.len() - i,
    {
        let path = &paths[i];
        let a: PushResult = if has_dot_segment(path.as_str()) {
            PushResult {
                path: path.clone(),
                ok: false,
                error: Some("点目录路径禁止删除".to_owned()),
                conflict_saved_as: None,
                server_hash: None,
            }
        } else {
            assert(paths@.contains(paths@[i as int]));
            let d = delete(path);
            let ghost d0 = d;
            assert(call_ensures(delete, (&paths@[i as int],), d0));
            match d {
                Ok(trash) => PushResult {
                    path: path.clone(),
                    ok: true,
                    error: None,
                    conflict_saved_as: Some(trash),
                    server_hash: None,
                },
                Err(e) => PushResult {
                    path: path.clone(),
                    ok: false,
                    error: Some(e),
                    conflict_saved_as: None,
                    server_hash: None,
                },
            }
        };
        assert(delete_answered(delete, paths@[i as int], a@));
        out.push(a);
        i = i + 1;
    }
    out
}

// ---------- announcing ----------

/// `s` with every `\\.` replaced by `.`.
pub open spec fn unescaped(s: Seq<char>) -> Seq<char>
    decreases s.len(),
{
    if s.len() == 0 {
        Seq::empty()
    } else if s.len() >= 2 && s[0] == '\\' && s[1] == '.' {
        seq!['.'] + unescaped(s.skip(2))
    } else {
        seq![s[0]] + unescaped(s.skip(1))
    }
}

/// The name of a device in the full name of its service: without the type of
/// the service and the dots at its end, and with escaped dots restored.
pub open spec fn instance_name(fullname: Seq<char>) -> Seq<char> {
    unescaped(text::trim_end_char(text::trim_end_part(fullname, "."@ + SERVICE_TYPE@), '.'))
}

/// The name of a device in the full name of its service.
pub fn service_instance_name(fullname: &str) -> (r: String)
    ensures
        r@ == instance_name(fullname@),
{
    let kind = concat(".", SERVICE_TYPE);
    let name = strip_end_part(fullname, kind.as_str());
    let t = strip_end_char(name.as_str(), '.');
    let v = to_chars(t.as_str());
    let mut r: String = String::new();
    let mut i: usize = 0;
    assert(v@.skip(0) =~= v@);
    assert(r@ + unescaped(v@) =~= unescaped(v@));
    while i < v.len()
        invariant
            i <= v.len(),
            v@ == t@,
            r@ + unescaped(v@.skip(i as int)) == unescaped(t@),
        decreases v.len() - i,
    {
        let ghost before = r@;
        let ghost rest = v@.skip(i as int);
        if v.len() - i >= 2 && v[i] == '\\' && v[i + 1] == '.' {
            r.push('.');
            assert(rest.skip(2) =~= v@.skip(i + 2));
            assert(before + unescaped(rest) =~= r@ + unescaped(v@.skip(i + 2)));
            i = i + 2;
        } else {
            r.push(v[i]);
            assert(rest.skip(1) =~= v@.skip(i + 1));
            assert(before + unescaped(rest) =~= r@ + unescaped(v@.skip(i + 1)));
            i = i + 1;
        }
    }
    assert(r@ + unescaped(v@.skip(i as int)) =~= r@);
    r
}

/// Why a port could not be bound.
#[derive(Debug)]
pub enum BindFault {
    /// Another program has it.
    InUse,
    /// Another fault.
    Other(String),
}

/// Whether the first `n` ports are in use.
pub open spec fn in_use_to<L, B: Fn(u16) -> Result<L, BindFault>>(bind: B, n: int) -> bool {
    forall|i: int| #![trigger port_at(i)]
        0 <= i < n ==> call_ensures(bind, (port_at(i),), Err(BindFault::InUse))
}

/// The port that a server tries behind the first `i`.
pub open spec fn port_at(i: int) -> u16 {
    (DEFAULT_PORT + i) as u16
}

/// Whether `r` is what comes of the port behind the first `n`, which are in
/// use: it is bound, or has another fault.
pub open spec fn bound_at<L, B: Fn(u16) -> Result<L, BindFault>>(
    bind: B,
    n: int,
    r: Result<(u16, L), String>,
) -> bool {
    &&& 0 <= n < MAX_PORT_TRIES
    &&& in_use_to(bind, n)
    &&& match r {
        Ok((port, l)) => port == port_at(n) && call_ensures(bind, (port,), Ok(l)),
        Err(e) => call_ensures(bind, (port_at(n),), Err(BindFault::Other(e))),
    }
}

/// The sentence for a server that finds no free port.
pub open spec fn all_in_use() -> Seq<char> {
    text::decimal(DEFAULT_PORT as nat) + ".."@ + text::decimal((DEFAULT_PORT + MAX_PORT_TRIES) as nat)
        + " 全部被占"@
}

/// Binds the first port that is free. `bind` is tried on one port after the
/// other, each once those before it are in use; another fault ends the search.
pub fn bind_listener<L, B: Fn(u16) -> Result<L, BindFault>>(bind: B) -> (r: Result<(u16, L), String>)
    requires
        forall|p: u16, i: int|
            0 <= i < MAX_PORT_TRIES && p == #[trigger] port_at(i) && in_use_to(bind, i)
                ==> #[trigger] call_requires(bind, (p,)),
    ensures
        (exists|n: int| #[trigger] bound_at(bind, n, r)) || (in_use_to(bind, MAX_PORT_TRIES as int) && r is Err
            && r->Err_0@ == all_in_use()),
{
    let mut i: u16 = 0;
    while i < MAX_PORT_TRIES
        invariant
            i <= MAX_PORT_TRIES,
            in_use_to(bind, i as int),
            forall|p: u16, i: int|
                0 <= i < MAX_PORT_TRIES && p == #[trigger] port_at(i) && in_use_to(bind, i)
                    ==> #[trigger] call_requires(bind, (p,)),
        decreases MAX_PORT_TRIES - i,
    {
        let port: u16 = DEFAULT_PORT + i;
        assert(port == port_at(i as int));
        let got = bind(port);
        assert(call_ensures(bind, (port,), got));
        match got {
            Ok(l) => {
                assert(bound_at(bind, i as int, Ok((port, l))));
                return Ok((port, l));
            },
            Err(BindFault::Other(e)) => {
                assert(bound_at(bind, i as int, Err::<(u16, L), String>(e)));
                return Err(e);
            },
            Err(BindFault::InUse) => {},
        }
        i = i + 1;
    }
    let first = text::decimal_u64(DEFAULT_PORT as u64);
    let end = text::decimal_u64((DEFAULT_PORT + MAX_PORT_TRIES) as u64);
    Err(text::concat4(first.as_str(), "..", end.as_str(), " 全部被占"))
}

/// The body of a push.
#[derive(Debug)]
pub struct PushBody {
    pub files: Vec<PushFile>,
}

/// What the owner of a server is shown.
#[derive(Debug)]
pub struct SyncPairingInfo {
    pub running: bool,
    pub port: Option<u16>,
    pub device_name: String,
    pub pairing_code: String,
    /// When a client last started a round.
    pub last_round_at: Option<i64>,
}

/// What the owner of a server is shown. A time of 0 or before stands for no
/// round yet.
pub fn pairing_info(port: Option<u16>, cfg: &SyncConfig, last_round: i64) -> (r: SyncPairingInfo)
    ensures
        r.running == port is Some,
        r.port == port,
        r.device_name@ == cfg@.device_name,
        r.pairing_code@ == cfg@.pairing_code,
        r.last_round_at == if last_round > 0 {
            Some(last_round)
        } else {
            None
        },
{
    SyncPairingInfo {
        running: port.is_some(),
        port,
        device_name: cfg.device_name.clone(),
        pairing_code: cfg.pairing_code.clone(),
        last_round_at: if last_round > 0 {
            Some(last_round)
        } else {
            None
        },
    }
}

/// The number of names that hold `part`, among the first `n`.
pub open spec fn count_with(names: Seq<Seq<char>>, part: Seq<char>, n: int) -> nat
    decreases n,
{
    if n <= 0 || n > names.len() {
        0
    } else {
        count_with(names, part, n - 1) + if text::has_part(names[n - 1], part) {
            1nat
        } else {
            0
        }
    }
}

/// The number of conflict copies in a vault: those among its notes, which the
/// index counts, and those among its attachments.
pub fn conflict_count(notes: u32, asset_names: &Vec<String>) -> (r: u32)
    requires
        notes + asset_names@.len() <= u32::MAX,
    ensures
        r == notes + count_with(
            text::views(asset_names@),
            "冲突"@,
            asset_names@.len() as int,
        ),
{
    let mut n: u32 = notes;
    let mut i: usize = 0;
    let ghost names = text::views(asset_names@);
    while i < asset_names.len()
        invariant
            i <= asset_names.len(),
            names == text::views(asset_names@),
            notes + asset_names@.len() <= u32::MAX,
            n == notes + count_with(names, "冲突"@, i as int),
            count_with(names, "冲突"@, i as int) <= i,
        decreases asset_names.len() - i,
    {
        assert(names[i as int] == asset_names@[i as int]@);
        if contains_part(asset_names[i].as_str(), "冲突") {
            n = n + 1;
        }
        i = i + 1;
    }
    n
}

/// How many of the first `n` entries of a directory are files.
pub open spec fn files_among(entries: Seq<Entry>, n: int) -> nat
    decreases n,
{
    if n <= 0 || n > entries.len() {
        0
    } else {
        files_among(entries, n - 1) + if entries[n - 1].kind == EntryKind::File {
            1nat
        } else {
            0
        }
    }
}

/// What the server tells anyone about itself: its name, how many notes the
/// index has, and how many files lie in the directory of attachments. It reads
/// no file, so that questions cost it little. Without a vault it has no name
/// and nothing; what cannot be read counts as nothing.
pub fn light_stats(name: Option<&str>, notes: Option<i64>, assets: Option<&Vec<Entry>>) -> (r: (String, u64, u64))
    ensures
        name is None ==> r.0@ == Seq::<char>::empty() && r.1 == 0 && r.2 == 0,
        name matches Some(n) ==> {
            &&& r.0@ == n@
            &&& r.1 == match notes {
                Some(k) => k as u64,
                None => 0u64,
            }
            &&& r.2 == match assets {
                Some(a) => files_among(a@, a@.len() as int),
                None => 0,
            }
        },
{
    let n: &str = match name {
        Some(n) => n,
        None => {
            let none = String::new();
            assert(none@ =~= Seq::<char>::empty());
            return (none, 0, 0);
        },
    };
    let notes: u64 = match notes {
        Some(k) => #[verifier::truncate] (k as u64),
        None => 0,
    };
    let mut count: u64 = 0;
    if let Some(a) = assets {
        let mut i: usize = 0;
        while i < a.len()
            invariant
                i <= a.len(),
                count == files_among(a@, i as int),
                count <= i,
            decreases a.len() - i,
        {
            if let EntryKind::File = a[i].kind {
                count = count + 1;
            }
            i = i + 1;
        }
    }
    (n.to_owned(), notes, count)
}

// ---------- what a server gives out and takes in ----------

/// A manifest is known by its paths: each listed path is found, with what the
/// last entry for it says, and no other is.
pub proof fn law_manifest_is_known_by_path(s: Seq<FileMetaView>, path: Seq<char>, i: int)
    ensures
        by_path(s).dom().contains(path) <==> exists|k: int| 0 <= k < s.len() && (#[trigger] s[k]).path == path,
        0 <= i < s.len() && s[i].path == path && (forall|j: int| i < j < s.len() ==> (#[trigger] s[j]).path != path)
            ==> by_path(s)[path] == s[i],
{
    lemma_paths_known(s, path);
    if 0 <= i < s.len() && s[i].path == path && (forall|j: int|
        i < j < s.len() ==> (#[trigger] s[j]).path != path) {
        lemma_last_counts(s, path, i);
    }
}

proof fn lemma_paths_known(s: Seq<FileMetaView>, path: Seq<char>)
    ensures
        by_path(s).dom().contains(path) <==> exists|k: int| 0 <= k < s.len() && (#[trigger] s[k]).path == path,
    decreases s.len(),
{
    if s.len() > 0 {
        let rest = s.drop_last();
        let last = s[s.len() - 1];
        lemma_paths_known(rest, path);
        if by_path(rest).dom().contains(path) {
            let k = choose|k: int| 0 <= k < rest.len() && (#[trigger] rest[k]).path == path;
            assert(s[k].path == path);
        } else {
            assert forall|k: int| 0 <= k < s.len() && k != s.len() - 1 implies (#[trigger] s[k]).path != path by {
                assert(rest[k] == s[k]);
            }
        }
    }
}

proof fn lemma_last_counts(s: Seq<FileMetaView>, path: Seq<char>, i: int)
    requires
        0 <= i < s.len(),
        s[i].path == path,
        forall|j: int| i < j < s.len() ==> (#[trigger] s[j]).path != path,
    ensures
        by_path(s)[path] == s[i],
    decreases s.len(),
{
    let rest = s.drop_last();
    if i < s.len() - 1 {
        assert(s[s.len() - 1].path != path);
        assert forall|j: int| i < j < rest.len() implies (#[trigger] rest[j]).path != path by {
            assert(s[j].path != path);
        }
        lemma_last_counts(rest, path, i);
    }
}

proof fn lemma_served_files(s: Seq<Result<PullFileView, Seq<char>>>, f: PullFileView)
    ensures
        served_files(s).contains(f) <==> exists|i: int| 0 <= i < s.len() && #[trigger] s[i] == Ok::<
            PullFileView,
            Seq<char>,
        >(f),
    decreases s.len(),
{
    reveal(Seq::filter_map);
    if s.len() > 0 {
        let rest = s.drop_last();
        let head = served_files(rest);
        let all = served_files(s);
        lemma_served_files(rest, f);
        assert(s =~= rest.push(s.last()));
        if exists|i: int| 0 <= i < s.len() && #[trigger] s[i] == Ok::<PullFileView, Seq<char>>(f) {
            let i = choose|i: int| 0 <= i < s.len() && #[trigger] s[i] == Ok::<PullFileView, Seq<char>>(f);
            if i < rest.len() {
                assert(rest[i] == s[i]);
                let k = choose|k: int| 0 <= k < head.len() && head[k] == f;
                assert(all[k] == f);
            } else {
                assert(all[head.len() as int] == f);
            }
        }
        if all.contains(f) {
            let k = choose|k: int| 0 <= k < all.len() && all[k] == f;
            if k < head.len() {
                assert(head[k] == f);
                let i = choose|i: int| 0 <= i < rest.len() && #[trigger] rest[i] == Ok::<PullFileView, Seq<char>>(f);
                assert(s[i] == rest[i]);
            } else {
                assert(s[s.len() - 1] == Ok::<PullFileView, Seq<char>>(f));
            }
        }
    }
}

proof fn lemma_refused(paths: Seq<Seq<char>>, s: Seq<Result<PullFileView, Seq<char>>>, n: int, i: int)
    requires
        0 <= n <= s.len(),
        s.len() == paths.len(),
    ensures
        0 <= i < n && s[i] is Err ==> refused_paths(paths, s, n).contains((paths[i], s[i]->Err_0)),
        refused_paths(paths, s, n).len() + served_files(s.take(n)).len() == n,
    decreases n,
{
    reveal(Seq::filter_map);
    if n > 0 {
        lemma_refused(paths, s, n - 1, i);
        let head = refused_paths(paths, s, n - 1);
        let all = refused_paths(paths, s, n);
        assert(s.take(n) =~= s.take(n - 1).push(s[n - 1]));
        assert(s.take(n).drop_last() =~= s.take(n - 1));
        if s[n - 1] is Err {
            assert(all[head.len() as int] == (paths[n - 1], s[n - 1]->Err_0));
            if 0 <= i < n - 1 && s[i] is Err {
                let k = choose|k: int| 0 <= k < head.len() && head[k] == (paths[i], s[i]->Err_0);
                assert(all[k] == (paths[i], s[i]->Err_0));
            }
        }
    } else {
        assert(s.take(0) =~= Seq::empty());
        assert(served_files(s.take(0)).len() == 0);
    }
}

/// Each path that a client asks for is answered once. A file that the manifest
/// lists, in the vault, and that can be read is sent with its own bytes, their
/// hash and the time in the manifest; any other is named as missing.
pub proof fn law_pulls_are_answered<F: Fn(&String) -> Result<Vec<u8>, String>>(
    manifest: &Vec<FileMeta>,
    vault: &str,
    paths: &Vec<String>,
    read: F,
    r: sync::PullResponse,
    i: int,
)
    requires
        call_ensures(pull_blocking::<F>, (manifest, vault, paths, read), r),
        0 <= i < paths@.len(),
    ensures
        r.files@.len() + r.missing@.len() == paths@.len(),
        ({
            let path = paths@[i]@;
            let list = by_path(text::views(manifest@));
            let named = exists|why: Seq<char>| #[trigger] pair_views(r.missing@).contains((path, why));
            if !list.dom().contains(path) || fs_ops::safe_joined(vault@, path) is Err {
                named
            } else {
                exists|abs: String, got: Result<Vec<u8>, String>|
                    {
                        &&& #[trigger] call_ensures(read, (&abs,), got)
                        &&& Ok::<Seq<char>, fs_ops::FsErrorView>(abs@) == fs_ops::safe_joined(vault@, path)
                        &&& got is Err ==> named
                        &&& got matches Ok(b) ==> exists|f: PullFileView|
                            {
                                &&& #[trigger] text::views(r.files@).contains(f)
                                &&& f.path == path
                                &&& f.kind == list[path].kind
                                &&& f.mtime_ms == list[path].mtime_ms
                                &&& f.hash == text::hex(digest::sha256(b@))
                                &&& digest::base64_decoded(f.content_base64) == digest::bytes_ok(b@)
                            }
                    }
            }
        }),
{
    let list = by_path(text::views(manifest@));
    let all = text::views(paths@);
    let items = choose|items: Seq<Result<PullFileView, Seq<char>>>|
        {
            &&& #[trigger] pulled_items(read, list, vault@, all, items)
            &&& text::views(r.files@) == served_files(items)
            &&& pair_views(r.missing@) == refused_paths(all, items, items.len() as int)
        };
    let path = paths@[i]@;
    assert(all[i] == path);
    lemma_refused(all, items, items.len() as int, i);
    assert(items.take(items.len() as int) =~= items);
    assert(text::views(r.files@).len() == r.files@.len());
    assert(pair_views(r.missing@).len() == r.missing@.len());
    assert(pulled_item(read, list, vault@, all[i], items[i]));
    let (abs, got) = choose|abs: String, got: Result<Vec<u8>, String>|
        {
            &&& #[trigger] read_at(read, abs, got, is_served(list, vault@, path))
            &&& is_served(list, vault@, path) ==> abs@ == fs_ops::safe_joined(vault@, path)->Ok_0
            &&& items[i] == served(list, vault@, path, read_view(got))
            &&& items[i] is Ok ==> carries(items[i]->Ok_0, got->Ok_0@)
        };
    if items[i] is Err {
        assert(pair_views(r.missing@).contains((path, items[i]->Err_0)));
    } else {
        lemma_served_files(items, items[i]->Ok_0);
        assert(text::views(r.files@).contains(items[i]->Ok_0));
    }
    if is_served(list, vault@, path) {
        assert(call_ensures(read, (&abs,), got));
    }
}

/// A path leads into a hidden directory exactly if one of its segments starts
/// with a dot.
pub proof fn law_dot_segments_are_seen(segs: Seq<Seq<char>>)
    requires
        segs.len() > 0,
        forall|i: int, j: int| 0 <= i < segs.len() && 0 <= j < segs[i].len() ==> #[trigger] segs[i][j] != '/',
    ensures
        in_dot_dir(text::joined(segs, '/')) <==> exists|i: int|
            0 <= i < segs.len() && (#[trigger] segs[i]).len() > 0 && segs[i][0] == '.',
{
    reveal_strlit(".");
    assert("."@ =~= seq!['.']);
    text::law_split_undoes_joining(segs, '/');
    assert forall|i: int| 0 <= i < segs.len() implies text::starts_with(#[trigger] segs[i], "."@) == (
    segs[i].len() > 0 && segs[i][0] == '.') by {
        if segs[i].len() > 0 {
            assert(segs[i].take(1) =~= seq![segs[i][0]]);
            if segs[i].take(1) == seq!['.'] {
                assert(segs[i].take(1)[0] == '.');
            }
        }
    }
}

/// A pushed file is taken in exactly if it is what it says: its content can be
/// decoded and has its hash, it lies in no hidden directory, and it is a note
/// named like one or an attachment in the directory of attachments.
pub proof fn law_pushed_files_must_be_what_they_say(pf: &PushFile, r: Result<Vec<u8>, String>)
    requires
        call_ensures(pushed_content, (pf,), r),
    ensures
        r is Ok <==> {
            &&& digest::base64_decoded(pf@.content_base64) is Ok
            &&& text::hex(digest::sha256(digest::base64_decoded(pf@.content_base64)->Ok_0)) == pf@.hash
            &&& !in_dot_dir(pf@.path)
            &&& {
                ||| pf@.kind == "note"@ && exists|t: Seq<char>| pf@.path == #[trigger] (t + ".md"@)
                ||| pf@.kind == "asset"@ && (exists|t: Seq<char>| pf@.path == #[trigger] ("assets/"@ + t)) && !(
                exists|a: Seq<char>, b: Seq<char>| pf@.path == #[trigger] (a + ".."@ + b))
            }
        },
        r matches Ok(b) ==> digest::base64_decoded(pf@.content_base64) == digest::bytes_ok(b@),
{
    reveal_strlit("note");
    reveal_strlit("asset");
    assert("note"@.len() == 4 && "asset"@.len() == 5);
    text::law_parts_of_a_text(pf@.path, ".md"@);
    text::law_parts_of_a_text(pf@.path, "assets/"@);
    text::law_parts_of_a_text(pf@.path, ".."@);
}

/// A push is clean where the client has seen what lies at the path; else the
/// later of the two versions wins, by time, then size, then hash, and the one
/// that lies there where neither does.
pub proof fn law_push_is_judged_by_what_the_client_saw(pf: PushFileView, len: nat, bytes: Seq<u8>, mtime_ms: i64)
    ensures
        ({
            let v = verdict_of(pf, len, bytes, mtime_ms);
            let there = text::hex(digest::sha256(bytes));
            let size = bytes.len() as i64;
            let more = len as i64;
            let later = pf.mtime_ms > mtime_ms || (pf.mtime_ms == mtime_ms && (more > size || (more == size
                && text::lex_lt(there, pf.hash))));
            &&& v == Verdict::Clean <==> there == pf.base_hash
            &&& v == Verdict::IncomingWins <==> there != pf.base_hash && later
            &&& v == Verdict::IncomingLoses <==> there != pf.base_hash && !later
        }),
{
}

/// A push that is accepted lies at its path, unless a later version that the
/// client has not seen lies there; then the pushed one lies in a copy. The answer
/// names the hash of what lies at the path, and the copy. No copy is made where
/// nothing lay there, or the client had seen it.
pub proof fn law_accepted_pushes<
    L: Fn(&String) -> Current,
    K: Fn(&String, &String, &Vec<u8>) -> Result<String, String>,
    R: Fn(&String),
    W: Fn(&FileWrite) -> Option<WriteFault>,
>(
    pf: &PushFile,
    now_ms: i64,
    look: L,
    keep: K,
    remove: R,
    write: W,
    r: Result<Landed, String>,
)
    requires
        call_ensures(write_pushed_file::<L, K, R, W>, (pf, now_ms, look, keep, remove, write), r),
        r is Ok,
    ensures
        exists|p: String, current: Current|
            {
                &&& #[trigger] call_ensures(look, (&p,), current)
                &&& p@ == pf@.path
                &&& !(current is Unreadable)
                &&& current is Nothing ==> r->Ok_0.conflict_saved_as is None && lies_there(write, pf@)
                    && r->Ok_0.server_hash@ == pf@.hash
                &&& current matches Current::Content(old, mtime_ms) ==> {
                    let seen = text::hex(digest::sha256(old@)) == pf@.base_hash;
                    let v = verdict_of(pf@, push_content(pf@)->Ok_0.len(), old@, mtime_ms);
                    &&& seen ==> r->Ok_0.conflict_saved_as is None && lies_there(write, pf@)
                        && r->Ok_0.server_hash@ == pf@.hash
                    &&& v == Verdict::IncomingWins ==> {
                        &&& kept_in_copy(keep, pf@, old@, r->Ok_0.conflict_saved_as)
                        &&& removed(remove, pf@.path)
                        &&& lies_there(write, pf@)
                        &&& r->Ok_0.server_hash@ == pf@.hash
                    }
                    &&& v == Verdict::IncomingLoses ==> {
                        &&& kept_in_copy(keep, pf@, push_content(pf@)->Ok_0, r->Ok_0.conflict_saved_as)
                        &&& r->Ok_0.server_hash@ == text::hex(digest::sha256(old@))
                    }
                }
            },
{
    let view = pf@;
    let bytes = push_content(view)->Ok_0;
    let current = choose|current: Current| #[trigger]
        looked(look, view.path, current) && settle_outcome(keep, remove, write, view, bytes, now_ms, current, r);
    let p = choose|p: String| #[trigger] call_ensures(look, (&p,), current) && p@ == view.path;
    assert(call_ensures(look, (&p,), current));
    if let Current::Content(old, mtime_ms) = current {
        let v = verdict_of(view, bytes.len(), old@, mtime_ms);
        if v != Verdict::Clean {
            law_push_keeps_both_versions(keep, remove, write, view, bytes, now_ms, old, mtime_ms, r);
        }
        if v == Verdict::IncomingLoses {
            let copy = r->Ok_0.conflict_saved_as->0@;
            assert(kept_at(keep, view, bytes, copy));
            if fs_ops::hash_text(old@) == view.hash {
                assert(r->Ok_0.server_hash@ == view.hash);
            }
        }
    }
}

/// Whether a pushed file was written to its path, with its own content.
pub open spec fn lies_there<W: Fn(&FileWrite) -> Option<WriteFault>>(write: W, pf: PushFileView) -> bool {
    exists|x: FileWrite|
        {
            &&& #[trigger] call_ensures(write, (&x,), None::<WriteFault>)
            &&& x@.path == pf.path
            &&& digest::base64_decoded(pf.content_base64) == digest::bytes_ok(x@.bytes)
            &&& pf.mtime_ms > 0 ==> x@.time_ms == Some(pf.mtime_ms as u64)
            &&& x@.revives
            &&& x@.row is Some <==> pf.kind == "note"@
        }
}

/// Whether bytes were kept as the copy that an answer names.
pub open spec fn kept_in_copy<K: Fn(&String, &String, &Vec<u8>) -> Result<String, String>>(
    keep: K,
    pf: PushFileView,
    bytes: Seq<u8>,
    copy: Option<String>,
) -> bool {
    copy is Some && kept_at(keep, pf, bytes, copy->0@)
}

/// A request to push or delete is answered path by path, in order. What went well
/// is said to have gone well, with the copy or the place in the trash; what did
/// not is named with its reason. Nothing in a hidden directory is deleted.
pub proof fn law_requests_are_answered_in_order<
    F: Fn(&PushFile) -> Result<Landed, String>,
    D: Fn(&String) -> Result<String, String>,
>(
    files: &Vec<PushFile>,
    write: F,
    pushed: Vec<PushResult>,
    paths: &Vec<String>,
    delete: D,
    deleted: Vec<PushResult>,
    i: int,
)
    requires
        call_ensures(push_blocking::<F>, (files, write), pushed),
        call_ensures(delete_blocking::<D>, (paths, delete), deleted),
    ensures
        pushed@.len() == files@.len(),
        deleted@.len() == paths@.len(),
        0 <= i < files@.len() ==> exists|l: Result<Landed, String>|
            {
                &&& #[trigger] call_ensures(write, (&files@[i],), l)
                &&& pushed@[i]@.path == files@[i].path@
                &&& pushed@[i]@.ok <==> l is Ok
                &&& l matches Ok(x) ==> {
                    &&& pushed@[i]@.server_hash == Some(x.server_hash@)
                    &&& pushed@[i]@.conflict_saved_as == text::opt_view(x.conflict_saved_as)
                    &&& pushed@[i]@.error is None
                }
                &&& l matches Err(e) ==> pushed@[i]@.error == Some(e@) && pushed@[i]@.server_hash is None
            },
        0 <= i < paths@.len() && in_dot_dir(paths@[i]@) ==> !deleted@[i]@.ok && deleted@[i]@.error is Some
            && deleted@[i]@.path == paths@[i]@,
        0 <= i < paths@.len() && !in_dot_dir(paths@[i]@) ==> exists|d: Result<String, String>|
            {
                &&& #[trigger] call_ensures(delete, (&paths@[i],), d)
                &&& deleted@[i]@.path == paths@[i]@
                &&& deleted@[i]@.ok <==> d is Ok
                &&& d matches Ok(t) ==> deleted@[i]@.conflict_saved_as == Some(t@)
                &&& d matches Err(e) ==> deleted@[i]@.error == Some(e@)
            },
{
    if 0 <= i < files@.len() {
        assert(push_answered(write, files@[i], pushed@[i]@));
        let l = choose|l: Result<Landed, String>| #[trigger]
            call_ensures(write, (&files@[i],), l) && pushed@[i]@ == push_answer(files@[i].path@, l);
        assert(call_ensures(write, (&files@[i],), l));
    }
    if 0 <= i < paths@.len() {
        assert(delete_answered(delete, paths@[i], deleted@[i]@));
        if !in_dot_dir(paths@[i]@) {
            let d = choose|d: Result<String, String>| #[trigger]
                call_ensures(delete, (&paths@[i],), d) && deleted@[i]@ == delete_answer(
                    paths@[i]@,
                    delete_view(d),
                );
            assert(call_ensures(delete, (&paths@[i],), d));
        }
    }
}

// ---------- who may come in ----------

/// Who comes without a token is told to pair; who comes while no vault is open is
/// told so; any other token than one that was issued is refused.
pub proof fn law_refusals_say_why(auth: Option<Seq<char>>, cfg: Option<SyncConfigView>, token: Seq<char>)
    ensures
        access(None, cfg) matches Some(r) && r.status == 401,
        access(Some("Bearer "@), cfg) matches Some(r) && r.status == 401,
        token.len() > 0 ==> (access(Some("Bearer "@ + token), None) matches Some(r) && r.status == 409),
        token.len() > 0 && cfg is Some && !cfg->0.tokens.contains(token) ==> (access(
            Some("Bearer "@ + token),
            cfg,
        ) matches Some(r) && r.status == 403),
        (auth matches Some(a) && !(exists|t: Seq<char>| a == #[trigger] ("Bearer "@ + t))) ==> (access(
            auth,
            cfg,
        ) matches Some(r) && r.status == 401),
{
    let p = "Bearer "@;
    assert((p + token).take(p.len() as int) =~= p);
    assert((p + token).skip(p.len() as int) =~= token);
    assert(p.take(p.len() as int) =~= p);
    assert(p.skip(p.len() as int) =~= Seq::<char>::empty());
    if auth is Some {
        text::law_parts_of_a_text(auth->0, p);
    }
}

/// After ten wrong codes in a row no code is looked at for a minute; then it is
/// again. A right code forgets the wrong ones before it, and fewer than ten do not
/// lock.
pub proof fn law_pairing_locks_for_a_minute(g: PairGuard, now: u64, later: u64, right: bool)
    requires
        g.wf(),
        !g.is_locked(now),
        now + 60_000_000_000 <= u64::MAX,
    ensures
        g.failures == 9 ==> {
            let h = g.after(now, false).1;
            &&& h.is_locked(later) <==> later <= now + 60_000_000_000
            &&& h.after(later, right).0 is Locked <==> later <= now + 60_000_000_000
            &&& later > now + 60_000_000_000 && right ==> h.after(later, right).0 is Right
        },
        g.failures < 9 ==> g.after(now, false).1.failures == g.failures + 1 && !g.after(now, false).1.is_locked(now),
        g.after(now, false).0 is Wrong,
        g.after(now, true).0 is Right,
        g.after(now, true).1.failures == 0,
        g.after(now, true).1.locked_until is None,
{
}

/// Only the right code pairs; a wrong one is refused, and one that comes too soon
/// is told to wait.
pub proof fn law_only_the_right_code_pairs(v: PairVerdict)
    ensures
        pair_refusal(v) is None <==> v is Right,
        v is Wrong ==> pair_refusal(v)->0.status == 403,
        v is Locked ==> pair_refusal(v)->0.status == 429,
{
}

/// A pairing code is eight digits, each made from one byte of the material; a
/// nonce is the first sixteen bytes, in hexadecimal.
pub proof fn law_codes_are_made_of_digits(d: Seq<u8>, i: int)
    requires
        d.len() >= 16,
        0 <= i < 8,
    ensures
        code_digits(d).len() == 8,
        code_digits(d)[i] as int == '0' as int + d[i] as int % 10,
        nonce_of(d).len() == 32,
        nonce_of(d)[2 * i] == text::digit(d[i] as int / 16),
        nonce_of(d)[2 * i + 1] == text::digit(d[i] as int % 16),
{
    text::law_hex_has_two_digits_for_each_byte(d.take(16), i);
    assert(d.take(16)[i] == d[i]);
}

// ---------- what a server is called ----------

proof fn lemma_unescaped_plain(a: Seq<char>, b: Seq<char>)
    requires
        forall|i: int| 0 <= i < a.len() ==> #[trigger] a[i] != '\\',
    ensures
        unescaped(a + b) == a + unescaped(b),
    decreases a.len(),
{
    if a.len() > 0 {
        let s = a + b;
        assert(s[0] == a[0]);
        assert(a[0] != '\\');
        assert(s.skip(1) =~= a.drop_first() + b);
        assert forall|i: int| 0 <= i < a.drop_first().len() implies #[trigger] a.drop_first()[i] != '\\' by {
            assert(a[i + 1] != '\\');
        }
        lemma_unescaped_plain(a.drop_first(), b);
        assert(unescaped(s) =~= a + unescaped(b));
    } else {
        assert(a + b =~= b);
        assert(a + unescaped(b) =~= unescaped(b));
    }
}

/// A server is called by its name without the kind of service behind it; a dot
/// that was escaped in the name is a dot again.
pub proof fn law_servers_are_called_by_their_name(name: Seq<char>, a: Seq<char>, b: Seq<char>)
    requires
        forall|i: int| 0 <= i < name.len() ==> #[trigger] name[i] != '\\' && name[i] != '.',
        forall|i: int| 0 <= i < a.len() ==> #[trigger] a[i] != '\\',
    ensures
        instance_name(name + "._lanmark._tcp.local."@) == name,
        unescaped(name) == name,
        unescaped(a + seq!['\\', '.'] + b) == a + seq!['.'] + unescaped(b),
{
    reveal_strlit("._lanmark._tcp.local.");
    reveal_strlit("_lanmark._tcp.local.");
    reveal_strlit(".");
    let p = "."@ + SERVICE_TYPE@;
    assert(p =~= "._lanmark._tcp.local."@);
    text::law_end_parts_are_taken_off(name, p);
    assert(!text::ends_with(name, p)) by {
        if text::ends_with(name, p) {
            let t = name.skip(name.len() - p.len());
            assert(t[0] == p[0]);
            assert(name[name.len() - p.len()] == '.');
        }
    }
    assert(text::trim_end_part(name + p, p) == name);
    assert(text::trim_end_char(name, '.') == name) by {
        if name.len() > 0 {
            assert(name[name.len() - 1] != '.');
        }
    }
    assert forall|i: int| 0 <= i < name.len() implies #[trigger] name[i] != '\\' by {}
    lemma_unescaped_plain(name, Seq::empty());
    assert(name + Seq::<char>::empty() =~= name);
    assert(name + unescaped(Seq::<char>::empty()) =~= name);
    let t = seq!['\\', '.'] + b;
    lemma_unescaped_plain(a, t);
    assert(a + seq!['\\', '.'] + b =~= a + t);
    assert(t.skip(2) =~= b);
    assert(a + (seq!['.'] + unescaped(b)) =~= a + seq!['.'] + unescaped(b));
}

/// A server listens at the first free port from 4180 on: all before it were in
/// use. It gives up after 60 ports, or at once where a port fails otherwise.
pub proof fn law_first_free_port_is_taken<L, B: Fn(u16) -> Result<L, BindFault>>(
    bind: B,
    r: Result<(u16, L), String>,
    q: u16,
)
    requires
        call_ensures(bind_listener::<L, B>, (bind,), r),
    ensures
        r matches Ok((port, l)) ==> {
            &&& 4180 <= port < 4240
            &&& call_ensures(bind, (port,), Ok(l))
            &&& 4180 <= q < port ==> call_ensures(bind, (q,), Err(BindFault::InUse))
        },
        r matches Err(e) ==> {
            ||| forall|p: u16| 4180 <= p < 4240 ==> #[trigger] call_ensures(bind, (p,), Err(BindFault::InUse))
            ||| exists|p: u16| 4180 <= p < 4240 && #[trigger] call_ensures(bind, (p,), Err(BindFault::Other(e)))
        },
{
    if exists|n: int| #[trigger] bound_at(bind, n, r) {
        let n = choose|n: int| #[trigger] bound_at(bind, n, r);
        if 4180 <= q < port_at(n) {
            assert(port_at(q - 4180) == q);
        }
        assert(4180 <= port_at(n) < 4240);
    } else {
        assert forall|p: u16| 4180 <= p < 4240 implies #[trigger] call_ensures(
            bind,
            (p,),
            Err(BindFault::InUse),
        ) by {
            assert(port_at(p - 4180) == p);
        }
    }
}

/// Conflicts among attachments are counted by the mark in their names, each once,
/// and files among entries by their kind.
pub proof fn law_counts_go_up_by_one(names: Seq<Seq<char>>, x: Seq<char>, part: Seq<char>, entries: Seq<Entry>, e: Entry)
    ensures
        count_with(Seq::empty(), part, 0) == 0,
        count_with(names.push(x), part, names.len() as int + 1) == count_with(names, part, names.len() as int) + if text::has_part(
            x,
            part,
        ) {
            1nat
        } else {
            0
        },
        files_among(Seq::empty(), 0) == 0,
        files_among(entries.push(e), entries.len() as int + 1) == files_among(entries, entries.len() as int) + if e.kind
            == EntryKind::File {
            1nat
        } else {
            0
        },
{
    lemma_count_of_more(names, x, part, names.len() as int);
    lemma_files_of_more(entries, e, entries.len() as int);
    assert(names.push(x)[names.len() as int] == x);
    assert(entries.push(e)[entries.len() as int] == e);
}

proof fn lemma_count_of_more(names: Seq<Seq<char>>, x: Seq<char>, part: Seq<char>, n: int)
    requires
        0 <= n <= names.len(),
    ensures
        count_with(names.push(x), part, n) == count_with(names, part, n),
    decreases n,
{
    if n > 0 {
        lemma_count_of_more(names, x, part, n - 1);
        assert(names.push(x)[n - 1] == names[n - 1]);
    }
}

proof fn lemma_files_of_more(entries: Seq<Entry>, e: Entry, n: int)
    requires
        0 <= n <= entries.len(),
    ensures
        files_among(entries.push(e), n) == files_among(entries, n),
    decreases n,
{
    if n > 0 {
        lemma_files_of_more(entries, e, n - 1);
        assert(entries.push(e)[n - 1] == entries[n - 1]);
    }
}

// ---------- what a push may do ----------

/// Whether `current` was found at a path.
pub open spec fn found_there<L: Fn(&String) -> Current>(look: L, path: Seq<char>, current: Current) -> bool {
    exists|p: String| #[trigger] call_ensures(look, (&p,), current) && p@ == path
}

/// Whether bytes were kept as a copy of a file, under the name `copy`.
pub open spec fn kept_under<K: Fn(&String, &String, &Vec<u8>) -> Result<String, String>>(
    keep: K,
    path: Seq<char>,
    kind: Seq<char>,
    bytes: Seq<u8>,
    copy: Seq<char>,
) -> bool {
    exists|p: String, k: String, b: Vec<u8>, saved: String|
        {
            &&& #[trigger] call_ensures(keep, (&p, &k, &b), Ok(saved))
            &&& p@ == path
            &&& k@ == kind
            &&& b@ == bytes
            &&& saved@ == copy
        }
}

/// What an answer calls a copy holds the bytes that lost, under the path and kind
/// of the file; what is called removed was removed at that path.
pub proof fn law_copies_hold_what_lost<K: Fn(&String, &String, &Vec<u8>) -> Result<String, String>, R: Fn(&String)>(
    keep: K,
    remove: R,
    pf: PushFileView,
    bytes: Seq<u8>,
    copy: Option<String>,
)
    ensures
        kept_in_copy(keep, pf, bytes, copy) ==> copy is Some && kept_under(keep, pf.path, pf.kind, bytes, copy->0@),
        removed(remove, pf.path) ==> exists|p: String| #[trigger]
            call_ensures(remove, (&p,), ()) && p@ == pf.path,
{
    if kept_in_copy(keep, pf, bytes, copy) {
        let saved = choose|saved: String| #[trigger] kept_as(keep, pf, bytes, Ok(saved)) && saved@ == copy->0@;
        let (p, k, b) = choose|p: String, k: String, b: Vec<u8>|
            {
                &&& #[trigger] call_ensures(keep, (&p, &k, &b), Ok(saved))
                &&& p@ == pf.path
                &&& k@ == pf.kind
                &&& b@ == bytes
            };
        assert(call_ensures(keep, (&p, &k, &b), Ok(saved)));
    }
}

/// A push needs no more leave than this: it looks at its path; it keeps the
/// version that loses, where one does; it removes an older version only once that
/// is kept; and it writes its own content to its path only where it wins, once the
/// version that loses is kept and an older one removed. So no version that the
/// client has not seen is ever removed or written over before it is kept.
pub proof fn law_pushes_destroy_nothing_unkept<
    L: Fn(&String) -> Current,
    K: Fn(&String, &String, &Vec<u8>) -> Result<String, String>,
    R: Fn(&String),
    W: Fn(&FileWrite) -> Option<WriteFault>,
>(look: L, keep: K, remove: R, write: W, pf: PushFileView, bytes: Seq<u8>, now_ms: i64)
    requires
        forall|p: &String| p@ == pf.path ==> #[trigger] call_requires(look, (p,)),
        forall|p: &String, k: &String, b: &Vec<u8>, old: Vec<u8>, m: i64|
            {
                &&& #[trigger] found_there(look, pf.path, Current::Content(old, m))
                &&& p@ == pf.path
                &&& k@ == pf.kind
                &&& {
                    ||| verdict_of(pf, bytes.len(), old@, m) == Verdict::IncomingWins && b@ == old@
                    ||| verdict_of(pf, bytes.len(), old@, m) == Verdict::IncomingLoses && b@ == bytes
                }
            } ==> #[trigger] call_requires(keep, (p, k, b)),
        forall|p: &String, old: Vec<u8>, m: i64, copy: Seq<char>|
            {
                &&& #[trigger] found_there(look, pf.path, Current::Content(old, m))
                &&& p@ == pf.path
                &&& verdict_of(pf, bytes.len(), old@, m) == Verdict::IncomingWins
                &&& #[trigger] kept_under(keep, pf.path, pf.kind, old@, copy)
            } ==> #[trigger] call_requires(remove, (p,)),
        forall|x: &FileWrite, current: Current|
            {
                &&& #[trigger] found_there(look, pf.path, current)
                &&& x@ == pushed_write(pf, bytes, now_ms)
                &&& match current {
                    Current::Nothing => true,
                    Current::Unreadable(_) => false,
                    Current::Content(old, m) => match verdict_of(pf, bytes.len(), old@, m) {
                        Verdict::Clean => true,
                        Verdict::IncomingWins => {
                            &&& exists|copy: Seq<char>| #[trigger]
                                kept_under(keep, pf.path, pf.kind, old@, copy)
                            &&& exists|p: String| #[trigger] call_ensures(remove, (&p,), ()) && p@ == pf.path
                        },
                        Verdict::IncomingLoses => text::hex(digest::sha256(old@)) == pf.hash && exists|copy: Seq<char>|
                            #[trigger] kept_under(keep, pf.path, pf.kind, bytes, copy),
                    },
                }
            } ==> #[trigger] call_requires(write, (x,)),
    ensures
        push_leave(look, keep, remove, write, pf, bytes, now_ms),
{
    assert forall|p: &String, k: &String, b: &Vec<u8>, current: Current|
        {
            &&& p@ == pf.path
            &&& k@ == pf.kind
            &&& #[trigger] looked(look, pf.path, current)
            &&& loser_of(pf, bytes, current) == Some(b@)
        } implies #[trigger] call_requires(keep, (p, k, b)) by {
        assert(found_there(look, pf.path, current));
    }
    assert forall|p: &String, current: Current|
        {
            &&& p@ == pf.path
            &&& #[trigger] looked(look, pf.path, current)
            &&& drives_out(pf, bytes, current)
            &&& loser_kept(keep, pf, loser_of(pf, bytes, current))
        } implies #[trigger] call_requires(remove, (p,)) by {
        assert(found_there(look, pf.path, current));
        lemma_loser_kept(keep, pf, loser_of(pf, bytes, current)->0);
    }
    assert forall|x: &FileWrite, current: Current|
        {
            &&& x@ == pushed_write(pf, bytes, now_ms)
            &&& #[trigger] looked(look, pf.path, current)
            &&& takes_path(pf, bytes, current)
            &&& loser_kept(keep, pf, loser_of(pf, bytes, current))
            &&& drives_out(pf, bytes, current) ==> removed(remove, pf.path)
        } implies #[trigger] call_requires(write, (x,)) by {
        assert(found_there(look, pf.path, current));
        if loser_of(pf, bytes, current) is Some {
            lemma_loser_kept(keep, pf, loser_of(pf, bytes, current)->0);
        }
    }
}

proof fn lemma_loser_kept<K: Fn(&String, &String, &Vec<u8>) -> Result<String, String>>(
    keep: K,
    pf: PushFileView,
    loser: Seq<u8>,
)
    requires
        loser_kept(keep, pf, Some(loser)),
    ensures
        exists|copy: Seq<char>| #[trigger] kept_under(keep, pf.path, pf.kind, loser, copy),
{
    let copy = choose|copy: String| #[trigger] kept_as(keep, pf, loser, Ok(copy));
    let (p, k, b) = choose|p: String, k: String, b: Vec<u8>|
        {
            &&& #[trigger] call_ensures(keep, (&p, &k, &b), Ok(copy))
            &&& p@ == pf.path
            &&& k@ == pf.kind
            &&& b@ == loser
        };
    assert(call_ensures(keep, (&p, &k, &b), Ok(copy)));
    assert(kept_under(keep, pf.path, pf.kind, loser, copy@));
}

/// The conflicts that a server shows are those of its notes and the attachments
/// whose names bear the mark of a copy.
pub proof fn law_conflicts_are_counted(notes: u32, names: &Vec<String>, r: u32)
    requires
        call_ensures(conflict_count, (notes, names), r),
        notes + names@.len() <= u32::MAX,
    ensures
        r == notes + text::views(names@).filter(|n: Seq<char>| text::has_part(n, "冲突"@)).len(),
{
    lemma_count_is_filter(text::views(names@), "冲突"@, names@.len() as int);
    assert(text::views(names@).take(names@.len() as int) =~= text::views(names@));
}

proof fn lemma_count_is_filter(names: Seq<Seq<char>>, part: Seq<char>, n: int)
    requires
        0 <= n <= names.len(),
    ensures
        count_with(names, part, n) == names.take(n).filter(|x: Seq<char>| text::has_part(x, part)).len(),
    decreases n,
{
    let f = |x: Seq<char>| text::has_part(x, part);
    if n > 0 {
        lemma_count_is_filter(names, part, n - 1);
        assert(names.take(n) =~= names.take(n - 1).push(names[n - 1]));
        names.take(n - 1).lemma_filter_push(names[n - 1], f);
    } else {
        reveal(Seq::filter);
        assert(names.take(0).len() == 0);
        assert(names.take(0).filter(f).len() == 0);
    }
}

/// What a server shows of itself is what is so: it runs where it has a port, under
/// its name and code, and its last round is shown once there was one. Without a
/// name nothing is shown of a vault; else its notes and the files among its
/// attachments.
pub proof fn law_a_server_shows_what_is_so(
    port: Option<u16>,
    cfg: &SyncConfig,
    last: i64,
    info: SyncPairingInfo,
    name: Option<&str>,
    notes: Option<i64>,
    assets: Option<&Vec<Entry>>,
    light: (String, u64, u64),
)
    requires
        call_ensures(pairing_info, (port, cfg, last), info),
        call_ensures(light_stats, (name, notes, assets), light),
    ensures
        info.running <==> port is Some,
        info.port == port,
        info.device_name@ == cfg@.device_name,
        info.pairing_code@ == cfg@.pairing_code,
        info.last_round_at == (if last > 0 {
            Some(last)
        } else {
            None
        }),
        name is None ==> light.0@.len() == 0 && light.1 == 0 && light.2 == 0,
        name matches Some(n) ==> light.0@ == n@,
        name is Some && notes is None ==> light.1 == 0,
        name is Some && assets is None ==> light.2 == 0,
        name is Some && assets is Some ==> light.2 == assets->0@.filter(|e: Entry| e.kind == EntryKind::File).len(),
{
    if assets is Some {
        let a = assets->0@;
        lemma_files_are_filter(a, a.len() as int);
        assert(a.take(a.len() as int) =~= a);
    }
}

proof fn lemma_files_are_filter(entries: Seq<Entry>, n: int)
    requires
        0 <= n <= entries.len(),
    ensures
        files_among(entries, n) == entries.take(n).filter(|e: Entry| e.kind == EntryKind::File).len(),
    decreases n,
{
    let f = |e: Entry| e.kind == EntryKind::File;
    if n > 0 {
        lemma_files_are_filter(entries, n - 1);
        assert(entries.take(n) =~= entries.take(n - 1).push(entries[n - 1]));
        entries.take(n - 1).lemma_filter_push(entries[n - 1], f);
    } else {
        reveal(Seq::filter);
        assert(entries.take(0).len() == 0);
        assert(entries.take(0).filter(f).len() == 0);
    }
}

/// To answer a pull, only files that the manifest lists and that lie in the vault
/// need to be read.
pub proof fn law_only_listed_files_are_read<F: Fn(&String) -> Result<Vec<u8>, String>>(
    read: F,
    manifest: Map<Seq<char>, FileMetaView>,
    vault: Seq<char>,
    paths: Seq<Seq<char>>,
)
    requires
        forall|s: &String, p: Seq<char>|
            {
                &&& paths.contains(p)
                &&& manifest.dom().contains(p)
                &&& Ok::<Seq<char>, fs_ops::FsErrorView>(s@) == #[trigger] fs_ops::safe_joined(vault, p)
            } ==> #[trigger] call_requires(read, (s,)),
    ensures
        pull_leave(read, manifest, vault, paths),
{
    assert forall|s: &String, i: int|
        {
            &&& 0 <= i < paths.len()
            &&& is_served(manifest, vault, #[trigger] paths[i])
            &&& s@ == fs_ops::safe_joined(vault, paths[i])->Ok_0
        } implies #[trigger] call_requires(read, (s,)) by {
        let p = paths[i];
        assert(paths.contains(p));
        assert(Ok::<Seq<char>, fs_ops::FsErrorView>(s@) == fs_ops::safe_joined(vault, p));
    }
}

} // verus!
