//! Finding devices on the local network without multicast: addresses that are
//! known first, then the neighbours, then the private networks of this machine.
use vstd::prelude::*;

use crate::sync_server::DEFAULT_PORT;
use crate::text;
use crate::text::{
    concat4, decimal_u64, find_char, from_range, has_prefix, has_suffix, parse_unsigned, same,
    split_char, split_words, to_ascii_lower, to_chars,
};

verus! {

/// How many ports are tried on an address.
pub const SCAN_PORT_SPAN: u16 = 10;

/// How many addresses with port are tried at most in a network scan.
pub const MAX_CANDIDATES: usize = 1024;

/// How long the scan of the networks may take, in milliseconds.
pub const L2_BUDGET_MS: u64 = 3000;

// ---------- addresses ----------

/// An IPv4 address.
#[derive(Debug, Clone, Copy, PartialEq, Eq, Structural)]
pub struct Ipv4Addr {
    pub bits: u32,
}

/// The octets of an address, from the left.
pub open spec fn octet(bits: int, i: int) -> int {
    if i == 0 {
        bits / 0x100_0000
    } else if i == 1 {
        bits / 0x1_0000 % 256
    } else if i == 2 {
        bits / 256 % 256
    } else {
        bits % 256
    }
}

/// The address of four octets.
pub open spec fn of_octets(a: int, b: int, c: int, d: int) -> int {
    a * 0x100_0000 + b * 0x1_0000 + c * 256 + d
}

impl Ipv4Addr {
    /// The address of four octets.
    pub fn new(a: u8, b: u8, c: u8, d: u8) -> (r: Self)
        ensures
            r.bits == of_octets(a as int, b as int, c as int, d as int),
    {
        Ipv4Addr { bits: a as u32 * 0x100_0000 + b as u32 * 0x1_0000 + c as u32 * 256 + d as u32 }
    }

    /// The octets of the address.
    pub fn octets(&self) -> (r: (u8, u8, u8, u8))
        ensures
            r.0 == octet(self.bits as int, 0),
            r.1 == octet(self.bits as int, 1),
            r.2 == octet(self.bits as int, 2),
            r.3 == octet(self.bits as int, 3),
    {
        (
            (self.bits / 0x100_0000) as u8,
            (self.bits / 0x1_0000 % 256) as u8,
            (self.bits / 256 % 256) as u8,
            (self.bits % 256) as u8,
        )
    }

    /// The address in dotted decimal notation.
    pub fn text(&self) -> (r: String)
        ensures
            r@ == dotted(self.bits as int),
    {
        let (a, b, c, d): (u8, u8, u8, u8) = self.octets();
        let x = decimal_u64(a as u64);
        let y = decimal_u64(b as u64);
        let z = decimal_u64(c as u64);
        let w = decimal_u64(d as u64);
        let mut out: String = concat4(x.as_str(), ".", y.as_str(), ".");
        out.append(z.as_str());
        out.append(".");
        out.append(w.as_str());
        out
    }

    /// The address that a text in dotted decimal notation stands for.
    pub fn parse(s: &str) -> (r: Option<Ipv4Addr>)
        ensures
            match r {
                Some(ip) => dotted_value(s@) == Some(ip.bits as int),
                None => dotted_value(s@) is None,
            },
    {
        let parts = split_char(s, '.');
        let ghost p = text::split(s@, '.');
        assert(p == text::views(parts@));
        if parts.len() != 4 {
            return None;
        }
        assert(p[0] == parts@[0]@ && p[1] == parts@[1]@ && p[2] == parts@[2]@ && p[3] == parts@[3]@);
        match (
            parse_octet(parts[0].as_str()),
            parse_octet(parts[1].as_str()),
            parse_octet(parts[2].as_str()),
            parse_octet(parts[3].as_str()),
        ) {
            (Some(a), Some(b), Some(c), Some(d)) => Some(Ipv4Addr::new(a, b, c, d)),
            _ => None,
        }
    }
}

impl std::str::FromStr for Ipv4Addr {
    type Err = ();

    fn from_str(s: &str) -> (r: Result<Self, ()>)
        ensures
            match r {
                Ok(ip) => dotted_value(s@) == Some(ip.bits as int),
                Err(_) => dotted_value(s@) is None,
            },
    {
        match Ipv4Addr::parse(s) {
            Some(ip) => Ok(ip),
            None => Err(()),
        }
    }
}

/// An address in dotted decimal notation.
pub open spec fn dotted(bits: int) -> Seq<char> {
    text::decimal(octet(bits, 0) as nat) + "."@ + text::decimal(octet(bits, 1) as nat) + "."@
        + text::decimal(octet(bits, 2) as nat) + "."@ + text::decimal(octet(bits, 3) as nat)
}

/// The value of an octet in decimal: one to three digits, no leading zero, at
/// most 255.
pub open spec fn octet_value(s: Seq<char>) -> Option<int> {
    if text::is_number(s) && s.len() <= 3 && (s.len() == 1 || s[0] != '0') && text::number(s) <= 255 {
        Some(text::number(s))
    } else {
        None
    }
}

/// The address that a text in dotted decimal notation stands for.
pub open spec fn dotted_value(s: Seq<char>) -> Option<int> {
    let p = text::split(s, '.');
    if p.len() != 4 {
        None
    } else {
        match (octet_value(p[0]), octet_value(p[1]), octet_value(p[2]), octet_value(p[3])) {
            (Some(a), Some(b), Some(c), Some(d)) => Some(of_octets(a, b, c, d)),
            _ => None,
        }
    }
}

/// The value of an octet in decimal.
fn parse_octet(s: &str) -> (r: Option<u8>)
    ensures
        match r {
            Some(n) => octet_value(s@) == Some(n as int),
            None => octet_value(s@) is None,
        },
{
    let v = to_chars(s);
    if v.len() == 0 || v.len() > 3 || v[0] == '+' || (v.len() > 1 && v[0] == '0') {
        return None;
    }
    match parse_unsigned(s, 255) {
        Some(n) => Some(n as u8),
        None => None,
    }
}

/// Whether an address is private: the blocks 10/8, 172.16/12, 192.168/16 and
/// the link-local 169.254/16.
pub open spec fn is_private_bits(bits: int) -> bool {
    ||| octet(bits, 0) == 10
    ||| octet(bits, 0) == 172 && 16 <= octet(bits, 1) <= 31
    ||| octet(bits, 0) == 192 && octet(bits, 1) == 168
    ||| octet(bits, 0) == 169 && octet(bits, 1) == 254
}

/// Whether an address is private.
pub fn is_private_v4(ip: Ipv4Addr) -> (r: bool)
    ensures
        r == is_private_bits(ip.bits as int),
{
    let (a, b, _c, _d): (u8, u8, u8, u8) = ip.octets();
    a == 10 || (a == 172 && 16 <= b && b <= 31) || (a == 192 && b == 168) || (a == 169 && b == 254)
}

/// The number of addresses that share a prefix of `prefix` bits.
pub open spec fn block_size(prefix: int) -> int
    decreases 32 - prefix,
{
    if prefix >= 32 {
        1
    } else {
        2 * block_size(prefix + 1)
    }
}

pub proof fn lemma_block_size(prefix: int)
    requires
        0 <= prefix <= 32,
    ensures
        1 <= block_size(prefix) <= 0x1_0000_0000,
        0x1_0000_0000int % block_size(prefix) == 0,
        prefix >= 1 ==> block_size(prefix) <= 0x8000_0000,
        prefix >= 8 ==> block_size(prefix) <= 0x100_0000 && 0x100_0000int % block_size(prefix) == 0,
        prefix >= 12 ==> block_size(prefix) <= 0x10_0000 && 0x10_0000int % block_size(prefix) == 0,
        prefix >= 16 ==> block_size(prefix) <= 0x1_0000 && 0x1_0000int % block_size(prefix) == 0,
        prefix <= 30 ==> block_size(prefix) >= 4,
{
    lemma_block_divides(0, prefix);
    lemma_block_divides(prefix, 32);
    if prefix <= 30 {
        lemma_block_divides(prefix, 30);
    }
    if prefix >= 1 {
        lemma_block_divides(1, prefix);
    }
    if prefix >= 8 {
        lemma_block_divides(8, prefix);
    }
    if prefix >= 12 {
        lemma_block_divides(12, prefix);
    }
    if prefix >= 16 {
        lemma_block_divides(16, prefix);
    }
    lemma_block_sizes();
}

proof fn lemma_block_sizes()
    ensures
        block_size(0) == 0x1_0000_0000,
        block_size(1) == 0x8000_0000,
        block_size(8) == 0x100_0000,
        block_size(12) == 0x10_0000,
        block_size(16) == 0x1_0000,
        block_size(30) == 4,
        block_size(32) == 1,
{
    reveal_with_fuel(block_size, 33);
}

/// The block of a longer prefix divides that of a shorter one.
proof fn lemma_block_divides(q: int, p: int)
    requires
        0 <= q <= p <= 32,
    ensures
        1 <= block_size(p) <= block_size(q),
        block_size(q) % block_size(p) == 0,
    decreases p - q,
{
    let k = block_size(p);
    lemma_block_positive(p);
    if q < p {
        lemma_block_divides(q + 1, p);
        let b = block_size(q + 1);
        vstd::arithmetic::div_mod::lemma_fundamental_div_mod(b, k);
        let m = b / k;
        assert(2 * b == (2 * m) * k) by (nonlinear_arith)
            requires
                b == k * m,
        ;
        vstd::arithmetic::div_mod::lemma_mod_multiples_basic(2 * m, k);
    } else {
        vstd::arithmetic::div_mod::lemma_mod_multiples_basic(1, k);
    }
}

proof fn lemma_block_positive(p: int)
    requires
        0 <= p <= 32,
    ensures
        block_size(p) >= 1,
    decreases 32 - p,
{
    if p < 32 {
        lemma_block_positive(p + 1);
    }
}

/// The network of an address: the address with all bits behind the prefix
/// cleared.
pub open spec fn network_of(bits: int, prefix: int) -> int {
    if prefix == 0 {
        0
    } else {
        bits - bits % block_size(prefix)
    }
}

/// The number of addresses that share a prefix of `prefix` bits.
fn size_of_block(prefix: u8) -> (r: u64)
    requires
        prefix <= 32,
    ensures
        r == block_size(prefix as int),
        1 <= r <= 0x1_0000_0000,
{
    let mut p: u8 = 32;
    let mut size: u64 = 1;
    while p > prefix
        invariant
            prefix <= p <= 32,
            size == block_size(p as int),
            1 <= size <= 0x1_0000_0000,
        decreases p,
    {
        proof {
            lemma_block_size(p - 1);
        }
        size = size * 2;
        p = p - 1;
    }
    size
}

/// The network of an address.
pub fn mask_v4(ip: Ipv4Addr, prefix: u8) -> (r: Ipv4Addr)
    requires
        prefix <= 32,
    ensures
        r.bits == network_of(ip.bits as int, prefix as int),
{
    if prefix == 0 {
        return Ipv4Addr { bits: 0 };
    }
    let size = size_of_block(prefix);
    let rest: u32 = (ip.bits as u64 % size) as u32;
    proof {
        vstd::arithmetic::div_mod::lemma_mod_decreases(ip.bits as nat, size as nat);
    }
    Ipv4Addr { bits: ip.bits - rest }
}

/// Taking the network of a network changes nothing.
pub proof fn law_mask_is_idempotent(bits: int, prefix: int)
    requires
        0 <= bits <= 0xffff_ffff,
        0 <= prefix <= 32,
    ensures
        network_of(network_of(bits, prefix), prefix) == network_of(bits, prefix),
{
    if prefix > 0 {
        lemma_block_size(prefix);
        let k = block_size(prefix);
        vstd::arithmetic::div_mod::lemma_fundamental_div_mod(bits, k);
        vstd::arithmetic::div_mod::lemma_mod_multiples_basic(bits / k, k);
        assert((bits / k) * k == k * (bits / k)) by (nonlinear_arith);
    }
}

/// A network of this machine.
#[derive(Debug, Clone, Copy, PartialEq, Eq, Structural)]
pub struct NetSegment {
    pub network: Ipv4Addr,
    pub prefix: u8,
}

/// The number of hosts of a network: all addresses but the first and the last.
pub open spec fn host_count(prefix: int) -> int {
    if prefix > 30 {
        0
    } else {
        block_size(prefix) - 2
    }
}

/// Host number `i` (from 1) of a network.
pub open spec fn host_bits(seg: NetSegment, i: int) -> int {
    network_of(seg.network.bits as int, seg.prefix as int) + i
}

proof fn lemma_host_fits(seg: NetSegment, i: int)
    requires
        1 <= seg.prefix <= 30,
        1 <= i <= host_count(seg.prefix as int),
    ensures
        0 <= host_bits(seg, i) <= 0xffff_ffff,
{
    let k = block_size(seg.prefix as int);
    let b = seg.network.bits as int;
    lemma_block_size(seg.prefix as int);
    vstd::arithmetic::div_mod::lemma_fundamental_div_mod(b, k);
    vstd::arithmetic::div_mod::lemma_fundamental_div_mod(0x1_0000_0000, k);
    let q = b / k;
    let m = 0x1_0000_0000int / k;
    assert(q < m) by (nonlinear_arith)
        requires
            b == k * q + b % k,
            0 <= b % k,
            b < 0x1_0000_0000,
            0x1_0000_0000 == k * m,
            k >= 1,
    ;
    assert(k * q + k <= 0x1_0000_0000) by (nonlinear_arith)
        requires
            q < m,
            0x1_0000_0000 == k * m,
            k >= 1,
    ;
}

impl NetSegment {
    /// Whether the network may be scanned: its address is private.
    pub fn is_private(&self) -> (r: bool)
        ensures
            r == is_private_bits(self.network.bits as int),
    {
        is_private_v4(self.network)
    }

    /// The hosts of the network, without its own address and that of the
    /// broadcast.
    pub fn hosts(&self) -> (r: Vec<Ipv4Addr>)
        requires
            self.prefix >= 1,
        ensures
            r@.len() == host_count(self.prefix as int),
            forall|i: int| 0 <= i < r@.len() ==> (#[trigger] r@[i]).bits == host_bits(*self, i + 1),
    {
        let mut out: Vec<Ipv4Addr> = Vec::new();
        if self.prefix > 30 {
            return out;
        }
        proof {
            lemma_block_size(self.prefix as int);
        }
        let n: u64 = size_of_block(self.prefix) - 2;
        let net = mask_v4(self.network, self.prefix);
        let mut i: u64 = 1;
        while i <= n
            invariant
                1 <= i <= n + 1,
                n == host_count(self.prefix as int),
                n <= 0xffff_ffff,
                1 <= self.prefix <= 30,
                net.bits == network_of(self.network.bits as int, self.prefix as int),
                out@.len() == i - 1,
                forall|j: int|
                    0 <= j < out@.len() ==> (#[trigger] out@[j]).bits == host_bits(*self, j + 1),
            decreases n + 1 - i,
        {
            proof {
                lemma_host_fits(*self, i as int);
            }
            out.push(Ipv4Addr { bits: net.bits + i as u32 });
            i = i + 1;
        }
        out
    }
}

/// The length of the prefix of the private block that an address lies in.
pub open spec fn private_block(bits: int) -> int {
    if octet(bits, 0) == 10 {
        8
    } else if octet(bits, 0) == 172 {
        12
    } else {
        16
    }
}

proof fn lemma_middle_block(bits: int)
    requires
        0 <= bits,
    ensures
        bits / 0x1_0000 == bits / 0x100_0000 * 256 + bits / 0x1_0000 % 256,
        bits / 0x10_0000 == bits / 0x1_0000 / 16,
{
}

/// Whether an address is private shows in its first 8, 12 or 16 bits.
proof fn lemma_private_blocks(bits: int)
    requires
        0 <= bits,
    ensures
        octet(bits, 0) == 10 <==> bits / 0x100_0000 == 10,
        octet(bits, 0) == 172 && 16 <= octet(bits, 1) <= 31 <==> bits / 0x10_0000 == 2753,
        octet(bits, 0) == 192 && octet(bits, 1) == 168 <==> bits / 0x1_0000 == 49320,
        octet(bits, 0) == 169 && octet(bits, 1) == 254 <==> bits / 0x1_0000 == 43518,
{
    lemma_middle_block(bits);
}

/// The scan of a network that lies in a private block does not leave the
/// private networks: every host of it is private.
pub proof fn law_hosts_are_private(seg: NetSegment, i: int)
    requires
        private_block(seg.network.bits as int) <= seg.prefix <= 30,
        is_private_bits(seg.network.bits as int),
        1 <= i <= host_count(seg.prefix as int),
    ensures
        is_private_bits(host_bits(seg, i)),
{
    let b = seg.network.bits as int;
    let k = block_size(seg.prefix as int);
    let w = if octet(b, 0) == 10 {
        0x100_0000int
    } else if octet(b, 0) == 172 {
        0x10_0000
    } else {
        0x1_0000
    };
    lemma_block_size(seg.prefix as int);
    lemma_host_fits(seg, i);
    let h = host_bits(seg, i);
    lemma_same_block(b, k, w, i);
    assert(h / w == b / w);
    lemma_private_blocks(b);
    lemma_private_blocks(h);
}

/// An address in the block of `k` around `b` lies in the larger block of `w`
/// around `b`.
proof fn lemma_same_block(b: int, k: int, w: int, i: int)
    requires
        0 <= b,
        1 <= k <= w,
        w % k == 0,
        0 <= i < k,
    ensures
        (b - b % k + i) / w == b / w,
{
    let m = w / k;
    let q = b / k;
    vstd::arithmetic::div_mod::lemma_fundamental_div_mod(w, k);
    vstd::arithmetic::div_mod::lemma_fundamental_div_mod(b, k);
    let h = b - b % k + i;
    assert(h == k * q + i);
    assert(m >= 1) by (nonlinear_arith)
        requires
            w == k * m,
            w >= k,
            k >= 1,
    ;
    vstd::arithmetic::div_mod::lemma_fundamental_div_mod_converse(h, k, q, i);
    assert(h / k == q);
    vstd::arithmetic::div_mod::lemma_div_denominator(h, k, m);
    vstd::arithmetic::div_mod::lemma_div_denominator(b, k, m);
}

/// The prefixes of the names of virtual interfaces.
pub open spec fn virtual_prefixes() -> Seq<Seq<char>> {
    seq![
        "docker"@,
        "veth"@,
        "br-"@,
        "virbr"@,
        "vmnet"@,
        "vboxnet"@,
        "utun"@,
        "tun"@,
        "tap"@,
        "wg"@,
        "zt"@,
        "lo"@,
        "ppp"@,
        "tailscale"@,
    ]
}

/// Whether an interface is virtual, by its name.
pub open spec fn is_virtual(name: Seq<char>) -> bool {
    exists|i: int|
        0 <= i < virtual_prefixes().len() && text::starts_with(
            text::ascii_lowered(name),
            #[trigger] virtual_prefixes()[i],
        )
}

/// Whether an interface is virtual, by its name: its network is not worth a
/// scan.
pub fn is_virtual_iface(name: &str) -> (r: bool)
    ensures
        r == is_virtual(name@),
{
    let prefixes: [&str; 14] = [
        "docker",
        "veth",
        "br-",
        "virbr",
        "vmnet",
        "vboxnet",
        "utun",
        "tun",
        "tap",
        "wg",
        "zt",
        "lo",
        "ppp",
        "tailscale",
    ];
    let ghost all = virtual_prefixes();
    assert(all =~= prefixes@.map_values(|t: &str| t@));
    let n = to_ascii_lower(name);
    let mut i: usize = 0;
    while i < 14
        invariant
            i <= 14,
            n@ == text::ascii_lowered(name@),
            all == virtual_prefixes(),
            all == prefixes@.map_values(|t: &str| t@),
            forall|j: int| 0 <= j < i ==> !text::starts_with(n@, #[trigger] all[j]),
        decreases 14 - i,
    {
        assert(all[i as int] == prefixes@[i as int]@);
        if has_prefix(n.as_str(), prefixes[i]) {
            assert(text::starts_with(n@, virtual_prefixes()[i as int]));
            return true;
        }
        i = i + 1;
    }
    false
}

/// The networks to scan for the first `n` interfaces: those of interfaces that
/// are not virtual, with a private address, each once.
pub open spec fn candidates(ifaces: Seq<(String, Ipv4Addr, u8)>, n: int) -> Seq<NetSegment>
    decreases n,
{
    if n <= 0 || n > ifaces.len() {
        Seq::empty()
    } else {
        let head = candidates(ifaces, n - 1);
        let (name, ip, prefix) = ifaces[n - 1];
        let seg = NetSegment {
            network: Ipv4Addr { bits: network_of(ip.bits as int, prefix as int) as u32 },
            prefix,
        };
        if is_virtual(name@) || prefix == 0 || prefix > 30 || !is_private_bits(
            seg.network.bits as int,
        ) || head.contains(seg) {
            head
        } else {
            head.push(seg)
        }
    }
}

/// The networks to scan: those of interfaces that are not virtual, with a
/// private address, each once.
pub fn subnet_candidates(ifaces: &Vec<(String, Ipv4Addr, u8)>) -> (r: Vec<NetSegment>)
    ensures
        r@ == candidates(ifaces@, ifaces@.len() as int),
        r@.no_duplicates(),
        forall|i: int|
            0 <= i < r@.len() ==> 1 <= (#[trigger] r@[i]).prefix <= 30 && is_private_bits(
                r@[i].network.bits as int,
            ),
{
    let mut out: Vec<NetSegment> = Vec::new();
    let mut i: usize = 0;
    while i < ifaces.len()
        invariant
            i <= ifaces.len(),
            out@ == candidates(ifaces@, i as int),
            out@.no_duplicates(),
            forall|j: int|
                0 <= j < out@.len() ==> 1 <= (#[trigger] out@[j]).prefix <= 30 && is_private_bits(
                    out@[j].network.bits as int,
                ),
        decreases ifaces.len() - i,
    {
        let prefix: u8 = ifaces[i].2;
        let ip: Ipv4Addr = ifaces[i].1;
        if !is_virtual_iface(ifaces[i].0.as_str()) && prefix != 0 && prefix <= 30 {
            let seg = NetSegment { network: mask_v4(ip, prefix), prefix };
            if seg.is_private() && !has_segment(&out, seg) {
                out.push(seg);
            }
        }
        i = i + 1;
    }
    out
}

/// Whether a network is in a list.
fn has_segment(list: &Vec<NetSegment>, seg: NetSegment) -> (r: bool)
    ensures
        r == list@.contains(seg),
{
    let mut i: usize = 0;
    while i < list.len()
        invariant
            i <= list.len(),
            forall|j: int| 0 <= j < i ==> list@[j] != seg,
        decreases list.len() - i,
    {
        if list[i].network.bits == seg.network.bits && list[i].prefix == seg.prefix {
            assert(list@[i as int] == seg);
            return true;
        }
        i = i + 1;
    }
    false
}

/// Whether an address is in a list.
fn has_address(list: &Vec<Ipv4Addr>, ip: Ipv4Addr) -> (r: bool)
    ensures
        r == list@.contains(ip),
{
    let mut i: usize = 0;
    while i < list.len()
        invariant
            i <= list.len(),
            forall|j: int| 0 <= j < i ==> list@[j] != ip,
        decreases list.len() - i,
    {
        if list[i].bits == ip.bits {
            assert(list@[i as int] == ip);
            return true;
        }
        i = i + 1;
    }
    false
}

// ---------- reading what the system says ----------

/// Address and prefix of a text such as `192.168.1.23/24`.
pub open spec fn cidr_value(s: Seq<char>) -> Option<(int, int)> {
    let i = text::first_index(s, '/');
    if i >= s.len() {
        None
    } else {
        match (dotted_value(s.take(i)), text::unsigned(s.skip(i + 1), 255)) {
            (Some(ip), Some(p)) => if p <= 32 {
                Some((ip, p))
            } else {
                None
            },
            _ => None,
        }
    }
}

/// Address and prefix of a text such as `192.168.1.23/24`.
pub fn parse_cidr(s: &str) -> (r: Option<(Ipv4Addr, u8)>)
    ensures
        match r {
            Some((ip, p)) => cidr_value(s@) == Some((ip.bits as int, p as int)),
            None => cidr_value(s@) is None,
        },
{
    let v = to_chars(s);
    assert(v@.skip(0) =~= v@);
    let i = find_char(&v, 0, '/');
    if i >= v.len() {
        return None;
    }
    let ip_text = from_range(&v, 0, i);
    let prefix_text = from_range(&v, i + 1, v.len());
    assert(ip_text@ =~= s@.take(i as int));
    assert(prefix_text@ =~= s@.skip(i + 1));
    match (Ipv4Addr::parse(ip_text.as_str()), parse_unsigned(prefix_text.as_str(), 255)) {
        (Some(ip), Some(p)) => if p <= 32 {
            Some((ip, p as u8))
        } else {
            None
        },
        _ => None,
    }
}

/// The position of the first `w` in a list of words, or its length.
pub open spec fn word_index(words: Seq<Seq<char>>, w: Seq<char>) -> int
    decreases words.len(),
{
    if words.len() == 0 || words[0] == w {
        0
    } else {
        1 + word_index(words.drop_first(), w)
    }
}

/// What a line of `ip -4 -o addr` says: interface, address and prefix. Its
/// first word is a number with a colon, the second the interface, and the word
/// behind `inet` the address.
pub open spec fn iface_of(cols: Seq<Seq<char>>) -> Option<(Seq<char>, int, int)> {
    let k = word_index(cols, "inet"@);
    if cols.len() < 2 || !text::ends_with(cols[0], ":"@) || text::starts_with(cols[1], "inet"@) || k + 1
        >= cols.len() {
        None
    } else {
        match cidr_value(cols[k + 1]) {
            Some((ip, p)) => Some((cols[1], ip, p)),
            None => None,
        }
    }
}

/// An interface by its plain values.
pub open spec fn iface_view(f: (String, Ipv4Addr, u8)) -> (Seq<char>, int, int) {
    (f.0@, f.1.bits as int, f.2 as int)
}

/// Interfaces by their plain values.
pub open spec fn iface_views(s: Seq<(String, Ipv4Addr, u8)>) -> Seq<(Seq<char>, int, int)> {
    s.map_values(|f: (String, Ipv4Addr, u8)| iface_view(f))
}

/// What a line of `ip -4 -o addr` says.
fn parse_iface(line: &str) -> (r: Option<(String, Ipv4Addr, u8)>)
    ensures
        match r {
            Some(f) => iface_of(text::words(line@)) == Some(iface_view(f)),
            None => iface_of(text::words(line@)) is None,
        },
{
    let cols = split_words(line);
    let ghost w = text::words(line@);
    assert(w == text::views(cols@));
    if cols.len() < 2 {
        return None;
    }
    assert(w[0] == cols@[0]@ && w[1] == cols@[1]@);
    if !has_suffix(cols[0].as_str(), ":") || has_prefix(cols[1].as_str(), "inet") {
        return None;
    }
    let mut k: usize = 0;
    assert(w.skip(0) =~= w);
    while k < cols.len() && !same(cols[k].as_str(), "inet")
        invariant
            k <= cols.len(),
            w == text::views(cols@),
            word_index(w, "inet"@) == k + word_index(w.skip(k as int), "inet"@),
        decreases cols.len() - k,
    {
        assert(w.skip(k as int)[0] == cols@[k as int]@);
        assert(w.skip(k as int).drop_first() =~= w.skip(k + 1));
        k = k + 1;
    }
    proof {
        if k < cols@.len() {
            assert(w.skip(k as int)[0] == cols@[k as int]@);
        }
    }
    if k >= cols.len() || k + 1 >= cols.len() {
        return None;
    }
    assert(w[k + 1] == cols@[k + 1]@);
    match parse_cidr(cols[k + 1].as_str()) {
        Some((ip, p)) => Some((cols[1].clone(), ip, p)),
        None => None,
    }
}

/// The interfaces in the output of `ip -4 -o addr`.
pub fn parse_ip_addr_output(output: &str) -> (r: Vec<(String, Ipv4Addr, u8)>)
    ensures
        iface_views(r@) == text::split(output@, '\n').filter_map(
            |line: Seq<char>| iface_of(text::words(line)),
        ),
{
    let lines = split_char(output, '\n');
    let ghost ls = text::split(output@, '\n');
    let ghost f = |line: Seq<char>| iface_of(text::words(line));
    let mut out: Vec<(String, Ipv4Addr, u8)> = Vec::new();
    let mut i: usize = 0;
    proof {
        assert(ls.take(0) =~= Seq::empty());
        reveal(Seq::filter_map);
        assert(iface_views(out@) =~= Seq::empty());
    }
    while i < lines.len()
        invariant
            i <= lines.len(),
            ls == text::views(lines@),
            f == (|line: Seq<char>| iface_of(text::words(line))),
            iface_views(out@) == ls.take(i as int).filter_map(f),
        decreases lines.len() - i,
    {
        proof {
            ls.lemma_filter_map_take_succ(f, i as int);
            assert(ls[i as int] == lines@[i as int]@);
        }
        let ghost before = out@;
        if let Some(x) = parse_iface(lines[i].as_str()) {
            let ghost v = iface_view(x);
            out.push(x);
            assert(iface_views(out@) =~= iface_views(before).push(v));
        }
        i = i + 1;
    }
    assert(ls.take(i as int) =~= ls);
    out
}

/// The private addresses that start the first `n` lines, each once.
pub open spec fn neighbors_of(lines: Seq<Seq<char>>, n: int) -> Seq<int>
    decreases n,
{
    if n <= 0 || n > lines.len() {
        Seq::empty()
    } else {
        let head = neighbors_of(lines, n - 1);
        let w = text::words(lines[n - 1]);
        if w.len() == 0 {
            head
        } else {
            match dotted_value(w[0]) {
                Some(ip) => if is_private_bits(ip) && !head.contains(ip) {
                    head.push(ip)
                } else {
                    head
                },
                None => head,
            }
        }
    }
}

/// The addresses of a list by their values.
pub open spec fn bits_of(s: Seq<Ipv4Addr>) -> Seq<int> {
    s.map_values(|ip: Ipv4Addr| ip.bits as int)
}

/// The neighbours in the output of `ip -4 neigh show`: the private addresses
/// that start its lines, each once.
pub fn parse_ip_neigh_output(output: &str) -> (r: Vec<Ipv4Addr>)
    ensures
        bits_of(r@) == neighbors_of(
            text::split(output@, '\n'),
            text::split(output@, '\n').len() as int,
        ),
        r@.no_duplicates(),
        forall|i: int| 0 <= i < r@.len() ==> is_private_bits((#[trigger] r@[i]).bits as int),
{
    let lines = split_char(output, '\n');
    let ghost ls = text::split(output@, '\n');
    let mut out: Vec<Ipv4Addr> = Vec::new();
    let mut i: usize = 0;
    assert(bits_of(out@) =~= Seq::empty());
    while i < lines.len()
        invariant
            i <= lines.len(),
            ls == text::views(lines@),
            bits_of(out@) == neighbors_of(ls, i as int),
            out@.no_duplicates(),
            forall|j: int|
                0 <= j < out@.len() ==> is_private_bits((#[trigger] out@[j]).bits as int),
        decreases lines.len() - i,
    {
        assert(ls[i as int] == lines@[i as int]@);
        let cols = split_words(lines[i].as_str());
        if cols.len() > 0 {
            assert(text::views(cols@)[0] == cols@[0]@);
            if let Some(ip) = Ipv4Addr::parse(cols[0].as_str()) {
                let known = has_address(&out, ip);
                let ghost before = out@;
                proof {
                    let x = bits_of(before);
                    if before.contains(ip) {
                        let k = choose|k: int| 0 <= k < before.len() && before[k] == ip;
                        assert(x[k] == ip.bits);
                    }
                    if x.contains(ip.bits as int) {
                        let k = choose|k: int| 0 <= k < x.len() && x[k] == ip.bits;
                        assert(before[k] == ip);
                    }
                }
                if is_private_v4(ip) && !known {
                    out.push(ip);
                    assert(bits_of(out@) =~= bits_of(before).push(ip.bits as int));
                }
            }
        }
        i = i + 1;
    }
    out
}

// ---------- scanning ----------

/// A device that answered.
#[derive(Debug, PartialEq, Eq)]
pub struct ScannedDevice {
    pub name: String,
    pub url: String,
    /// Empty where the server does not tell its identity.
    pub device_id: String,
    pub notes: u64,
}

pub struct ScannedDeviceView {
    pub name: Seq<char>,
    pub url: Seq<char>,
    pub device_id: Seq<char>,
    pub notes: u64,
}

impl View for ScannedDevice {
    type V = ScannedDeviceView;

    open spec fn view(&self) -> ScannedDeviceView {
        ScannedDeviceView {
            name: self.name@,
            url: self.url@,
            device_id: self.device_id@,
            notes: self.notes,
        }
    }
}

impl Clone for ScannedDevice {
    fn clone(&self) -> (r: Self)
        ensures
            r == *self,
    {
        ScannedDevice {
            name: self.name.clone(),
            url: self.url.clone(),
            device_id: self.device_id.clone(),
            notes: self.notes,
        }
    }
}

/// What a scan found.
#[derive(Debug, PartialEq, Eq)]
pub struct ScanOutcome {
    pub devices: Vec<ScannedDevice>,
    /// Whether the scan ended before all candidates were tried.
    pub truncated: bool,
}

impl Default for ScanOutcome {
    fn default() -> (r: Self)
        ensures
            r.devices@.len() == 0,
            !r.truncated,
    {
        ScanOutcome { devices: Vec::new(), truncated: false }
    }
}

/// Asks an address whether a server answers there.
pub trait InfoProbe: Sized {
    /// Whether the address may be asked: any, unless the probe says otherwise.
    open spec fn may_ask(&self, url: Seq<char>) -> bool {
        true
    }

    /// The device at `url`, if a server of this application answers.
    fn probe(&self, url: &str) -> Option<ScannedDevice>
        requires
            self.may_ask(url@),
    ;
}

/// Asks many addresses whether servers answer there.
pub trait BatchProbe: Sized {
    /// Whether the addresses may be asked, within a limit of time or without:
    /// any, unless the probe says otherwise.
    open spec fn may_ask(&self, urls: Seq<Seq<char>>, limited: bool) -> bool {
        true
    }

    /// The devices at `urls` that answered, in any order, and whether the time
    /// was up before all were asked. Only a limited batch has to mind the time.
    fn probe_batch(&self, urls: &Vec<String>, limited: bool) -> (Vec<ScannedDevice>, bool)
        requires
            self.may_ask(text::views(urls@), limited),
    ;
}

/// Whether the time was not up yet before address number `i` was asked.
pub open spec fn in_time<E: Fn(usize) -> u64>(elapsed: E, i: int) -> bool {
    exists|n: usize, t: u64| #[trigger] call_ensures(elapsed, (n,), t) && n == i && t < L2_BUDGET_MS
}

/// Whether the time was up before address number `i` was asked.
pub open spec fn time_up<E: Fn(usize) -> u64>(elapsed: E, i: int) -> bool {
    exists|n: usize, t: u64| #[trigger] call_ensures(elapsed, (n,), t) && n == i && t >= L2_BUDGET_MS
}

/// Whether the time was not up yet before any of the first `n` addresses.
pub open spec fn in_time_to<E: Fn(usize) -> u64>(elapsed: E, n: int) -> bool {
    forall|i: int| 0 <= i < n ==> #[trigger] in_time(elapsed, i)
}

/// Asks one address after the other, in a limited batch until the time is up.
/// `elapsed` says how many milliseconds of the batch have passed before the
/// address with the given number is asked.
pub struct InTurn<'a, P, E> {
    pub probe: &'a P,
    pub elapsed: E,
}

impl<'a, P: InfoProbe, E: Fn(usize) -> u64> BatchProbe for InTurn<'a, P, E> {
    open spec fn may_ask(&self, urls: Seq<Seq<char>>, limited: bool) -> bool {
        &&& forall|i: int|
            0 <= i < urls.len() && (limited ==> in_time_to(self.elapsed, i + 1)) ==> self.probe.may_ask(
                #[trigger] urls[i],
            )
        &&& forall|n: usize|
            limited && n < urls.len() && in_time_to(self.elapsed, n as int) ==> #[trigger] call_requires(
                self.elapsed,
                (n,),
            )
    }

    fn probe_batch(&self, urls: &Vec<String>, limited: bool) -> (r: (Vec<ScannedDevice>, bool))
        ensures
            !limited ==> asked_in_turn(self.probe, text::views(urls@), r.0@) && !r.1,
            limited ==> asked_in_time(self.probe, self.elapsed, text::views(urls@), r.0@, r.1),
    {
        let mut found: Vec<ScannedDevice> = Vec::new();
        let mut i: usize = 0;
        let mut late: bool = false;
        let ghost all = text::views(urls@);
        let ghost mut answers: Seq<Option<ScannedDevice>> = Seq::empty();
        let ghost f = |a: Option<ScannedDevice>| a;
        proof {
            reveal(Seq::filter_map);
            assert(answers.filter_map(f) =~= Seq::empty());
        }
        while i < urls.len() && !late
            invariant
                i <= urls.len(),
                f == (|a: Option<ScannedDevice>| a),
                all == text::views(urls@),
                self.may_ask(all, limited),
                answers.len() == i,
                forall|j: int| 0 <= j < i ==> answered(self.probe, all[j], #[trigger] answers[j]),
                found@ == answers.filter_map(f),
                late ==> limited && i < urls.len() && time_up(self.elapsed, i as int),
                limited ==> in_time_to(self.elapsed, i as int),
            decreases urls.len() - i + if late { 0int } else { 1 },
        {
            if limited {
                let passed: u64 = (self.elapsed)(i);
                assert(call_ensures(self.elapsed, (i,), passed));
                if passed >= L2_BUDGET_MS {
                    late = true;
                } else {
                    assert(in_time(self.elapsed, i as int));
                }
            }
            if !late {
                let u: &str = urls[i].as_str();
                assert(all[i as int] == u@);
                let a = self.probe.probe(u);
                let ghost before = answers;
                proof {
                    answers = answers.push(a);
                    answers.lemma_filter_map_take_succ(f, i as int);
                    assert(answers.take(i as int) =~= before);
                    assert(answers.take(i + 1) =~= answers);
                    assert(call_ensures(P::probe, (self.probe, u), a));
                }
                if let Some(d) = a {
                    found.push(d);
                }
                i = i + 1;
            }
        }
        proof {
            let part = all.take(i as int);
            assert forall|j: int| 0 <= j < part.len() implies answered(
                self.probe,
                part[j],
                #[trigger] answers[j],
            ) by {
                assert(part[j] == all[j]);
            }
            assert(found@ == devices_in(answers));
            assert(asked_in_turn(self.probe, part, found@));
            if !late {
                assert(part =~= all);
            }
        }
        (found, late)
    }
}

/// The devices among answers.
pub open spec fn devices_in(answers: Seq<Option<ScannedDevice>>) -> Seq<ScannedDevice> {
    answers.filter_map(|a: Option<ScannedDevice>| a)
}

/// Whether `answer` is what a probe of `url` gave.
pub open spec fn answered<P: InfoProbe>(probe: &P, url: Seq<char>, answer: Option<ScannedDevice>) -> bool {
    exists|u: &str| u@ == url && #[trigger] call_ensures(P::probe, (probe, u), answer)
}

/// Whether `found` are the devices that answered when `urls` were asked one
/// after the other.
pub open spec fn asked_in_turn<P: InfoProbe>(
    probe: &P,
    urls: Seq<Seq<char>>,
    found: Seq<ScannedDevice>,
) -> bool {
    exists|answers: Seq<Option<ScannedDevice>>|
        {
            &&& answers.len() == urls.len()
            &&& forall|i: int|
                0 <= i < urls.len() ==> answered(probe, urls[i], #[trigger] answers[i])
            &&& found == #[trigger] devices_in(answers)
        }
}

/// Whether `found` are the devices that answered when `urls` were asked one
/// after the other until the time was up, and `late` says whether it was up
/// before all were asked.
pub open spec fn asked_in_time<P: InfoProbe, E: Fn(usize) -> u64>(
    probe: &P,
    elapsed: E,
    urls: Seq<Seq<char>>,
    found: Seq<ScannedDevice>,
    late: bool,
) -> bool {
    exists|n: int|
        {
            &&& 0 <= n <= urls.len()
            &&& #[trigger] asked_in_turn(probe, urls.take(n), found)
            &&& in_time_to(elapsed, n)
            &&& late == (n < urls.len())
            &&& late ==> time_up(elapsed, n)
        }
}

/// The answers without those whose address came before.
pub open spec fn unique_devices(found: Seq<ScannedDeviceView>) -> Seq<ScannedDeviceView>
    decreases found.len(),
{
    if found.len() == 0 {
        Seq::empty()
    } else {
        let head = unique_devices(found.drop_last());
        if has_url(head, found.last().url) {
            head
        } else {
            head.push(found.last())
        }
    }
}

/// Whether a device with the address is in the list.
pub open spec fn has_url(s: Seq<ScannedDeviceView>, url: Seq<char>) -> bool {
    exists|i: int| 0 <= i < s.len() && (#[trigger] s[i]).url == url
}

/// The answers without those whose address came before.
pub fn merge_devices(found: &Vec<ScannedDevice>) -> (r: Vec<ScannedDevice>)
    ensures
        text::views(r@) == unique_devices(text::views(found@)),
{
    let mut out: Vec<ScannedDevice> = Vec::new();
    let mut i: usize = 0;
    let ghost all = text::views(found@);
    assert(all.take(0) =~= Seq::empty());
    assert(text::views(out@) =~= Seq::empty());
    while i < found.len()
        invariant
            i <= found.len(),
            all == text::views(found@),
            text::views(out@) == unique_devices(all.take(i as int)),
        decreases found.len() - i,
    {
        broadcast use text::lemma_views_push;
        proof {
            assert(all.take(i + 1).drop_last() =~= all.take(i as int));
            assert(all.take(i + 1).last() == found@[i as int]@);
        }
        let mut known: bool = false;
        let mut j: usize = 0;
        while j < out.len()
            invariant
                j <= out.len(),
                i < found.len(),
                known == exists|k: int|
                    0 <= k < j && (#[trigger] text::views(out@)[k]).url == found@[i as int].url@,
            decreases out.len() - j,
        {
            let ghost was = known;
            if same(out[j].url.as_str(), found[i].url.as_str()) {
                known = true;
                assert(text::views(out@)[j as int].url == found@[i as int].url@);
            }
            proof {
                if was {
                    let k = choose|k: int|
                        0 <= k < j && (#[trigger] text::views(out@)[k]).url == found@[i as int].url@;
                    assert(0 <= k < j + 1 && text::views(out@)[k].url == found@[i as int].url@);
                }
            }
            j = j + 1;
        }
        if !known {
            out.push(found[i].clone());
        }
        i = i + 1;
    }
    assert(all.take(i as int) =~= all);
    out
}

/// No address is listed twice, and every address that answered is listed.
pub proof fn law_found_devices_are_unique(found: Seq<ScannedDeviceView>)
    ensures
        forall|i: int, j: int|
            0 <= i < j < unique_devices(found).len() ==> (#[trigger] unique_devices(found)[i]).url
                != (#[trigger] unique_devices(found)[j]).url,
        forall|k: int|
            0 <= k < found.len() ==> has_url(unique_devices(found), (#[trigger] found[k]).url),
        unique_devices(found).len() == 0 <==> found.len() == 0,
    decreases found.len(),
{
    if found.len() > 0 {
        let rest = found.drop_last();
        let head = unique_devices(rest);
        let all = unique_devices(found);
        law_found_devices_are_unique(rest);
        assert forall|k: int| 0 <= k < found.len() implies has_url(all, (#[trigger] found[k]).url) by {
            if k < found.len() - 1 {
                assert(rest[k] == found[k]);
                assert(has_url(head, rest[k].url));
                let i = choose|i: int| 0 <= i < head.len() && (#[trigger] head[i]).url == found[k].url;
                assert(all[i].url == found[k].url);
            } else if has_url(head, found.last().url) {
            } else {
                assert(all[all.len() - 1].url == found[k].url);
            }
        }
        if has_url(head, found.last().url) {
            let i = choose|i: int| 0 <= i < head.len() && (#[trigger] head[i]).url == found.last().url;
            assert(head.len() > 0);
        } else {
            assert forall|i: int, j: int| 0 <= i < j < all.len() implies (#[trigger] all[i]).url != (
            #[trigger] all[j]).url by {
                if j == all.len() - 1 {
                    assert(all[i] == head[i]);
                } else {
                    assert(all[i] == head[i] && all[j] == head[j]);
                }
            }
        }
    }
}

/// What to scan.
pub struct ScanPlan {
    /// Addresses where devices were before, with port.
    pub known: Vec<String>,
    /// The neighbours of this machine.
    pub neighbors: Vec<Ipv4Addr>,
    /// The networks of this machine.
    pub subnets: Vec<NetSegment>,
    /// The only port to try, where it is known.
    pub known_port: Option<u16>,
    /// Whether the networks may be scanned.
    pub allow_subnet: bool,
}

/// The address of a server.
pub open spec fn url_of(bits: int, port: int) -> Seq<char> {
    "http://"@ + dotted(bits) + ":"@ + text::decimal(port as nat)
}

/// The address of a server.
fn server_url(ip: Ipv4Addr, port: u16) -> (r: String)
    ensures
        r@ == url_of(ip.bits as int, port as int),
{
    let t = ip.text();
    let p = decimal_u64(port as u64);
    concat4("http://", t.as_str(), ":", p.as_str())
}

/// The ports to try: the known one, or the first ones that servers use.
pub open spec fn ports_of(known: Option<u16>) -> Seq<u16> {
    match known {
        Some(p) => seq![p],
        None => Seq::new(10, |i: int| (4180 + i) as u16),
    }
}

/// The ports to try.
fn scan_ports(known: Option<u16>) -> (r: Vec<u16>)
    ensures
        r@ == ports_of(known),
{
    let mut out: Vec<u16> = Vec::new();
    match known {
        Some(p) => {
            out.push(p);
            assert(out@ =~= ports_of(known));
        },
        None => {
            let mut i: u16 = 0;
            while i < SCAN_PORT_SPAN
                invariant
                    i <= SCAN_PORT_SPAN,
                    out@ == ports_of(None).take(i as int),
                decreases SCAN_PORT_SPAN - i,
            {
                out.push(DEFAULT_PORT + i);
                i = i + 1;
                assert(ports_of(None).take(i as int) =~= ports_of(None).take(i - 1).push(
                    ports_of(None)[i - 1],
                ));
            }
            assert(ports_of(None).take(10) =~= ports_of(None));
        },
    }
    out
}

/// The addresses of one machine on all ports.
pub open spec fn machine_urls(bits: int, ports: Seq<u16>) -> Seq<Seq<char>> {
    ports.map_values(|p: u16| url_of(bits, p as int))
}

/// At most as many as a scan may have.
pub open spec fn capped(s: Seq<Seq<char>>) -> Seq<Seq<char>> {
    if s.len() <= MAX_CANDIDATES {
        s
    } else {
        s.take(MAX_CANDIDATES as int)
    }
}

/// The addresses of the first `n` neighbours on all ports.
pub open spec fn neighbor_urls(neighbors: Seq<Ipv4Addr>, ports: Seq<u16>, n: int) -> Seq<Seq<char>>
    decreases n,
{
    if n <= 0 || n > neighbors.len() {
        Seq::empty()
    } else {
        neighbor_urls(neighbors, ports, n - 1) + machine_urls(neighbors[n - 1].bits as int, ports)
    }
}

/// The addresses of the first `n` hosts of a network on all ports, without the
/// neighbours, which were tried before.
pub open spec fn host_urls(
    seg: NetSegment,
    neighbors: Seq<int>,
    ports: Seq<u16>,
    n: int,
) -> Seq<Seq<char>>
    decreases n,
{
    if n <= 0 {
        Seq::empty()
    } else if neighbors.contains(host_bits(seg, n)) {
        host_urls(seg, neighbors, ports, n - 1)
    } else {
        host_urls(seg, neighbors, ports, n - 1) + machine_urls(host_bits(seg, n), ports)
    }
}

/// The addresses of the hosts of the first `n` networks on all ports, without
/// the neighbours.
pub open spec fn subnet_urls(
    subnets: Seq<NetSegment>,
    neighbors: Seq<int>,
    ports: Seq<u16>,
    n: int,
) -> Seq<Seq<char>>
    decreases n,
{
    if n <= 0 || n > subnets.len() {
        Seq::empty()
    } else {
        subnet_urls(subnets, neighbors, ports, n - 1) + host_urls(
            subnets[n - 1],
            neighbors,
            ports,
            host_count(subnets[n - 1].prefix as int),
        )
    }
}

/// Appends the addresses of one machine, up to the cap where there is one.
fn push_machine(urls: &mut Vec<String>, ip: Ipv4Addr, ports: &Vec<u16>, cap: bool)
    requires
        cap ==> old(urls)@.len() <= MAX_CANDIDATES,
    ensures
        !cap ==> text::views(final(urls)@) == text::views(old(urls)@) + machine_urls(
            ip.bits as int,
            ports@,
        ),
        cap ==> text::views(final(urls)@) == capped(
            text::views(old(urls)@) + machine_urls(ip.bits as int, ports@),
        ),
{
    let ghost start = text::views(urls@);
    let ghost more = machine_urls(ip.bits as int, ports@);
    let mut i: usize = 0;
    assert(start + more.take(0) =~= start);
    while i < ports.len() && !(cap && urls.len() >= MAX_CANDIDATES)
        invariant
            i <= ports.len(),
            more == machine_urls(ip.bits as int, ports@),
            cap ==> urls@.len() <= MAX_CANDIDATES,
            text::views(urls@) == start + more.take(i as int),
        decreases ports.len() - i,
    {
        broadcast use text::lemma_views_push;
        let u = server_url(ip, ports[i]);
        assert(u@ == more[i as int]);
        urls.push(u);
        i = i + 1;
        assert(start + more.take(i as int) =~= (start + more.take(i - 1)).push(more[i - 1]));
    }
    proof {
        if i == ports@.len() {
            assert(more.take(i as int) =~= more);
        } else {
            assert(text::views(urls@).len() == MAX_CANDIDATES);
            assert((start + more).take(MAX_CANDIDATES as int) =~= start + more.take(i as int));
        }
    }
}

proof fn lemma_capped_prefix(a: Seq<Seq<char>>, b: Seq<Seq<char>>)
    requires
        a.len() >= MAX_CANDIDATES,
    ensures
        capped(a + b) == capped(a),
{
    assert((a + b).take(MAX_CANDIDATES as int) =~= a.take(MAX_CANDIDATES as int));
    if a.len() == MAX_CANDIDATES {
        assert(a.take(MAX_CANDIDATES as int) =~= a);
        if b.len() == 0 {
            assert(a + b =~= a);
        }
    }
}

proof fn lemma_capped_twice(a: Seq<Seq<char>>, b: Seq<Seq<char>>)
    ensures
        capped(capped(a) + b) == capped(a + b),
{
    if a.len() > MAX_CANDIDATES {
        let c = a.take(MAX_CANDIDATES as int);
        lemma_capped_prefix(c, b);
        lemma_capped_prefix(a, b);
        assert(c.take(MAX_CANDIDATES as int) =~= c);
    }
}

proof fn lemma_capped_hosts(
    done: Seq<Seq<char>>,
    seg: NetSegment,
    neighbors: Seq<int>,
    ports: Seq<u16>,
    i: int,
    n: int,
)
    requires
        0 <= i <= n,
        (done + host_urls(seg, neighbors, ports, i)).len() >= MAX_CANDIDATES,
    ensures
        capped(done + host_urls(seg, neighbors, ports, n)) == capped(
            done + host_urls(seg, neighbors, ports, i),
        ),
    decreases n,
{
    if i < n {
        lemma_capped_hosts(done, seg, neighbors, ports, i, n - 1);
        let a = host_urls(seg, neighbors, ports, n - 1);
        lemma_hosts_grow(seg, neighbors, ports, i, n - 1);
        if !neighbors.contains(host_bits(seg, n)) {
            let m = machine_urls(host_bits(seg, n), ports);
            lemma_capped_prefix(done + a, m);
            assert(done + (a + m) =~= (done + a) + m);
        }
    }
}

proof fn lemma_hosts_grow(
    seg: NetSegment,
    neighbors: Seq<int>,
    ports: Seq<u16>,
    i: int,
    n: int,
)
    requires
        0 <= i <= n,
    ensures
        host_urls(seg, neighbors, ports, i).len() <= host_urls(seg, neighbors, ports, n).len(),
    decreases n,
{
    if i < n {
        lemma_hosts_grow(seg, neighbors, ports, i, n - 1);
    }
}

proof fn lemma_capped_subnets(
    subnets: Seq<NetSegment>,
    neighbors: Seq<int>,
    ports: Seq<u16>,
    i: int,
    n: int,
)
    requires
        0 <= i <= n <= subnets.len(),
        subnet_urls(subnets, neighbors, ports, i).len() >= MAX_CANDIDATES,
    ensures
        subnet_urls(subnets, neighbors, ports, n).len() >= MAX_CANDIDATES,
        capped(subnet_urls(subnets, neighbors, ports, n)) == capped(
            subnet_urls(subnets, neighbors, ports, i),
        ),
    decreases n,
{
    if i < n {
        lemma_capped_subnets(subnets, neighbors, ports, i, n - 1);
        lemma_capped_prefix(
            subnet_urls(subnets, neighbors, ports, n - 1),
            host_urls(
                subnets[n - 1],
                neighbors,
                ports,
                host_count(subnets[n - 1].prefix as int),
            ),
        );
    }
}

impl ScanPlan {
    /// Whether every network of the plan has a prefix.
    pub open spec fn wf(self) -> bool {
        forall|i: int| 0 <= i < self.subnets@.len() ==> (#[trigger] self.subnets@[i]).prefix >= 1
    }

    /// The addresses of the neighbours to try.
    pub open spec fn spec_neighbor_urls(self) -> Seq<Seq<char>> {
        neighbor_urls(
            self.neighbors@,
            ports_of(self.known_port),
            self.neighbors@.len() as int,
        )
    }

    /// The addresses of the networks to try.
    pub open spec fn spec_subnet_urls(self) -> Seq<Seq<char>> {
        capped(
            subnet_urls(
                self.subnets@,
                bits_of(self.neighbors@),
                ports_of(self.known_port),
                self.subnets@.len() as int,
            ),
        )
    }

    /// The addresses of the neighbours to try: all ports of one, then the next.
    pub fn neighbor_candidates(&self) -> (r: Vec<String>)
        ensures
            text::views(r@) == self.spec_neighbor_urls(),
    {
        let ports = scan_ports(self.known_port);
        let mut urls: Vec<String> = Vec::new();
        let mut i: usize = 0;
        assert(text::views(urls@) =~= Seq::empty());
        while i < self.neighbors.len()
            invariant
                i <= self.neighbors.len(),
                ports@ == ports_of(self.known_port),
                text::views(urls@) == neighbor_urls(
                    self.neighbors@,
                    ports_of(self.known_port),
                    i as int,
                ),
            decreases self.neighbors.len() - i,
        {
            push_machine(&mut urls, self.neighbors[i], &ports, false);
            i = i + 1;
        }
        urls
    }

    /// The addresses of the networks to try: host by host, without the
    /// neighbours, and no more than a scan may have.
    pub fn subnet_candidate_urls(&self) -> (r: Vec<String>)
        requires
            self.wf(),
        ensures
            text::views(r@) == self.spec_subnet_urls(),
    {
        let ports = scan_ports(self.known_port);
        let ghost near = bits_of(self.neighbors@);
        let ghost pp = ports_of(self.known_port);
        let ghost segs = self.subnets@;
        let mut urls: Vec<String> = Vec::new();
        let mut i: usize = 0;
        assert(text::views(urls@) =~= Seq::empty());
        while i < self.subnets.len() && urls.len() < MAX_CANDIDATES
            invariant
                i <= self.subnets.len(),
                self.wf(),
                ports@ == pp,
                pp == ports_of(self.known_port),
                near == bits_of(self.neighbors@),
                segs == self.subnets@,
                urls@.len() <= MAX_CANDIDATES,
                text::views(urls@) == capped(subnet_urls(segs, near, pp, i as int)),
            decreases self.subnets.len() - i,
        {
            let seg = self.subnets[i];
            let ghost done = subnet_urls(segs, near, pp, i as int);
            let ghost count = host_count(seg.prefix as int);
            if seg.prefix <= 30 {
                proof {
                    lemma_block_size(seg.prefix as int);
                }
                let n: u64 = size_of_block(seg.prefix) - 2;
                let net = mask_v4(seg.network, seg.prefix);
                let mut k: u64 = 0;
                assert(done + host_urls(seg, near, pp, 0) =~= done);
                while k < n && urls.len() < MAX_CANDIDATES
                    invariant
                        k <= n,
                        n == count,
                        count == host_count(seg.prefix as int),
                        n <= 0xffff_ffff,
                        1 <= seg.prefix <= 30,
                        net.bits == network_of(seg.network.bits as int, seg.prefix as int),
                        ports@ == pp,
                        near == bits_of(self.neighbors@),
                        urls@.len() <= MAX_CANDIDATES,
                        text::views(urls@) == capped(done + host_urls(seg, near, pp, k as int)),
                    decreases n - k,
                {
                    k = k + 1;
                    proof {
                        lemma_host_fits(seg, k as int);
                    }
                    let ip = Ipv4Addr { bits: net.bits + k as u32 };
                    let skip = has_address(&self.neighbors, ip);
                    let ghost before = done + host_urls(seg, near, pp, k - 1);
                    proof {
                        let list = self.neighbors@;
                        if list.contains(ip) {
                            let a = choose|a: int| 0 <= a < list.len() && list[a] == ip;
                            assert(near[a] == ip.bits);
                        }
                        if near.contains(ip.bits as int) {
                            let a = choose|a: int| 0 <= a < near.len() && near[a] == ip.bits;
                            assert(list[a] == ip);
                        }
                    }
                    if !skip {
                        push_machine(&mut urls, ip, &ports, true);
                        proof {
                            let m = machine_urls(host_bits(seg, k as int), pp);
                            lemma_capped_twice(before, m);
                            assert(done + (host_urls(seg, near, pp, k - 1) + m) =~= before + m);
                            assert(urls@.len() == text::views(urls@).len());
                        }
                    }
                }
                proof {
                    if k < n {
                        lemma_capped_hosts(done, seg, near, pp, k as int, n as int);
                    }
                }
            } else {
                assert(done + host_urls(seg, near, pp, count) =~= done);
            }
            i = i + 1;
        }
        proof {
            if i < self.subnets@.len() {
                lemma_capped_subnets(segs, near, pp, i as int, segs.len() as int);
            }
        }
        urls
    }
}

/// Whether `out` is what a probe made of a batch of addresses.
pub open spec fn batch_outcome<P: BatchProbe>(
    probe: &P,
    urls: Seq<Seq<char>>,
    limited: bool,
    capped: bool,
    out: ScanOutcome,
) -> bool {
    exists|batch: Vec<String>, answer: (Vec<ScannedDevice>, bool)|
        {
            &&& #[trigger] call_ensures(P::probe_batch, (probe, &batch, limited), answer)
            &&& text::views(batch@) == urls
            &&& text::views(out.devices@) == unique_devices(text::views(answer.0@))
            &&& out.truncated == (capped || (limited && answer.1))
        }
}

/// Whether `out` is what a scan comes to. The known addresses are asked first,
/// then the neighbours, then the networks where that is allowed; the first of
/// these with an answer ends the scan.
pub open spec fn scan_outcome<P: BatchProbe>(plan: ScanPlan, probe: &P, out: ScanOutcome) -> bool {
    let l0 = text::views(plan.known@);
    let l1 = plan.spec_neighbor_urls();
    let l2 = plan.spec_subnet_urls();
    let hit = out.devices@.len() > 0;
    ||| plan.known@.len() > 0 && hit && batch_outcome(probe, l0, false, false, out)
    ||| passed(probe, l0) && plan.neighbors@.len() > 0 && hit && batch_outcome(
        probe,
        l1,
        false,
        false,
        out,
    )
    ||| passed(probe, l0) && passed(probe, l1) && (if plan.allow_subnet && plan.subnets@.len() > 0 {
        batch_outcome(probe, l2, true, l2.len() >= MAX_CANDIDATES, out)
    } else {
        !hit && !out.truncated
    })
}

/// Whether there was nothing to ask, or nobody answered.
pub open spec fn passed<P: BatchProbe>(probe: &P, urls: Seq<Seq<char>>) -> bool {
    urls.len() == 0 || exists|out: ScanOutcome|
        out.devices@.len() == 0 && #[trigger] batch_outcome(probe, urls, false, false, out)
}

/// The addresses that a scan may ask: the known ones; the neighbours only once
/// nobody answered at those; the networks only with leave, within a limit of
/// time, and once no neighbour answered either.
pub open spec fn scan_leave<P: BatchProbe>(plan: ScanPlan, probe: &P) -> bool {
    let l0 = text::views(plan.known@);
    let l1 = plan.spec_neighbor_urls();
    &&& plan.known@.len() > 0 ==> probe.may_ask(l0, false)
    &&& passed(probe, l0) && plan.neighbors@.len() > 0 ==> probe.may_ask(l1, false)
    &&& passed(probe, l0) && passed(probe, l1) && plan.allow_subnet && plan.subnets@.len() > 0
        ==> probe.may_ask(plan.spec_subnet_urls(), true)
}

/// Asks a batch of addresses.
fn probe_all<P: BatchProbe>(urls: &Vec<String>, probe: &P, limited: bool, capped: bool) -> (r: ScanOutcome)
    requires
        probe.may_ask(text::views(urls@), limited),
    ensures
        batch_outcome(probe, text::views(urls@), limited, capped, r),
{
    let (found, late) = probe.probe_batch(urls, limited);
    let devices = merge_devices(&found);
    let ghost answer = (found, late);
    let out = ScanOutcome { devices, truncated: capped || (limited && late) };
    assert(call_ensures(P::probe_batch, (probe, urls, limited), answer));
    out
}

/// Looks for devices: the known addresses first, then the neighbours, then the
/// networks where that is allowed. The first of these with an answer ends the
/// scan: nobody behind it is asked.
pub fn run_scan_with<P: BatchProbe>(plan: &ScanPlan, probe: &P) -> (r: ScanOutcome)
    requires
        plan.wf(),
        scan_leave(*plan, probe),
    ensures
        scan_outcome(*plan, probe, r),
{
    let ghost l0 = text::views(plan.known@);
    let ghost l1 = plan.spec_neighbor_urls();
    if plan.known.len() > 0 {
        let out = probe_all(&plan.known, probe, false, false);
        if out.devices.len() > 0 {
            return out;
        }
        assert(batch_outcome(probe, l0, false, false, out));
    }
    assert(passed(probe, l0));
    if plan.neighbors.len() > 0 {
        let urls = plan.neighbor_candidates();
        let out = probe_all(&urls, probe, false, false);
        if out.devices.len() > 0 {
            return out;
        }
        assert(batch_outcome(probe, l1, false, false, out));
    }
    assert(passed(probe, l1));
    if !plan.allow_subnet || plan.subnets.len() == 0 {
        return ScanOutcome::default();
    }
    let urls = plan.subnet_candidate_urls();
    let full: bool = urls.len() >= MAX_CANDIDATES;
    probe_all(&urls, probe, true, full)
}

/// Looks for devices as `run_scan_with` does, one address after the other. The
/// scan of the networks ends when its time is up, and says so; `elapsed` gives
/// the milliseconds that have passed of it.
pub fn run_scan<P: InfoProbe, E: Fn(usize) -> u64>(plan: &ScanPlan, probe: &P, elapsed: E) -> (r: ScanOutcome)
    requires
        plan.wf(),
        scan_leave(*plan, &(InTurn { probe, elapsed })),
    ensures
        scan_outcome(*plan, &(InTurn { probe, elapsed }), r),
{
    run_scan_with(plan, &InTurn { probe, elapsed })
}

/// A limited batch that is asked in turn ends when its time is up: it finds
/// what answered until then, and the scan says that it was cut off exactly where
/// an address was left, or where there were more than it may ask.
pub proof fn law_scan_ends_when_its_time_is_up<P: InfoProbe, E: Fn(usize) -> u64>(
    probe: &P,
    elapsed: E,
    urls: Seq<Seq<char>>,
    capped: bool,
    out: ScanOutcome,
)
    requires
        batch_outcome(&(InTurn { probe, elapsed }), urls, true, capped, out),
    ensures
        exists|found: Seq<ScannedDevice>, late: bool|
            {
                &&& #[trigger] asked_in_time(probe, elapsed, urls, found, late)
                &&& text::views(out.devices@) == unique_devices(text::views(found))
                &&& out.truncated == (capped || late)
            },
{
    let turn = InTurn { probe, elapsed };
    let (batch, answer) = choose|batch: Vec<String>, answer: (Vec<ScannedDevice>, bool)|
        {
            &&& #[trigger] call_ensures(<InTurn<P, E> as BatchProbe>::probe_batch, (&turn, &batch, true), answer)
            &&& text::views(batch@) == urls
            &&& text::views(out.devices@) == unique_devices(text::views(answer.0@))
            &&& out.truncated == (capped || (true && answer.1))
        };
    assert(asked_in_time(probe, elapsed, urls, answer.0@, answer.1));
}

/// Without leave a scan finds nothing in the networks: what is found answered at
/// a known address or is a neighbour, and nothing was cut off.
pub proof fn law_no_scan_without_leave<P: BatchProbe>(plan: ScanPlan, probe: &P, out: ScanOutcome)
    requires
        scan_outcome(plan, probe, out),
        !plan.allow_subnet,
    ensures
        !out.truncated,
        out.devices@.len() > 0 ==> (plan.known@.len() > 0 && batch_outcome(
            probe,
            text::views(plan.known@),
            false,
            false,
            out,
        )) || (plan.neighbors@.len() > 0 && batch_outcome(
            probe,
            plan.spec_neighbor_urls(),
            false,
            false,
            out,
        )),
{
}

/// Without leave a scan asks no address of a network: a probe that may ask the
/// known addresses and the neighbours, and nothing else, is enough for it.
pub proof fn law_networks_are_not_asked_without_leave<P: BatchProbe>(plan: ScanPlan, probe: &P)
    requires
        !plan.allow_subnet,
        probe.may_ask(text::views(plan.known@), false),
        probe.may_ask(plan.spec_neighbor_urls(), false),
    ensures
        scan_leave(plan, probe),
{
}

/// A network scan tries no more addresses than it may.
pub proof fn law_scan_is_capped(plan: ScanPlan)
    ensures
        plan.spec_subnet_urls().len() <= MAX_CANDIDATES,
{
}

// ---------- addresses ----------

/// An address is its four numbers, the first the highest.
pub proof fn law_addresses_are_four_numbers(a: int, b: int, c: int, d: int)
    requires
        0 <= a < 256,
        0 <= b < 256,
        0 <= c < 256,
        0 <= d < 256,
    ensures
        octet(of_octets(a, b, c, d), 0) == a,
        octet(of_octets(a, b, c, d), 1) == b,
        octet(of_octets(a, b, c, d), 2) == c,
        octet(of_octets(a, b, c, d), 3) == d,
        of_octets(a, b, c, d) == ((a * 256 + b) * 256 + c) * 256 + d,
        0 <= of_octets(a, b, c, d) <= 0xffff_ffff,
        dotted(of_octets(a, b, c, d)) == text::decimal(a as nat) + seq!['.'] + text::decimal(b as nat) + seq!['.']
            + text::decimal(c as nat) + seq!['.'] + text::decimal(d as nat),
{
    reveal_strlit(".");
    assert("."@ =~= seq!['.']);
    let x = of_octets(a, b, c, d);
    assert(x / 0x100_0000 == a);
    assert(x / 0x1_0000 == a * 256 + b);
    assert(x / 256 == a * 0x1_0000 + b * 256 + c);
}

proof fn lemma_plain_number(s: Seq<char>)
    requires
        text::is_number(s),
        s.len() == 1 || s[0] != '0',
    ensures
        text::number(s) >= 0,
        s.len() > 1 ==> text::number(s) >= 10,
        s[0] != '0' ==> text::number(s) >= 1,
        s == text::decimal(text::number(s) as nat),
    decreases s.len(),
{
    reveal_with_fuel(text::number, 2);
    assert(text::is_digit(s[s.len() - 1]));
    let d = text::digit_value(s.last());
    text::law_numbers_are_written_plainly(0, d);
    if s.len() == 1 {
        assert(s.drop_last().len() == 0);
        assert(text::number(s.drop_last()) == 0);
        assert(text::number(s) == d);
        assert(s =~= text::decimal(d as nat));
    } else {
        let head = s.drop_last();
        assert forall|i: int| 0 <= i < head.len() implies text::is_digit(#[trigger] head[i]) by {
            assert(text::is_digit(s[i]));
        }
        assert(head[0] == s[0]);
        lemma_plain_number(head);
        let n = text::number(head);
        assert(n >= 1);
        assert(text::number(s) == 10 * n + d);
        assert((10 * n + d) / 10 == n);
        assert((10 * n + d) % 10 == d);
        assert(s =~= text::decimal((10 * n + d) as nat));
    }
}

proof fn lemma_octet_value(n: int)
    requires
        0 <= n <= 255,
    ensures
        octet_value(text::decimal(n as nat)) == Some(n),
        forall|i: int| 0 <= i < text::decimal(n as nat).len() ==> #[trigger] text::decimal(n as nat)[i] != '.',
{
    let d = text::decimal(n as nat);
    text::law_numbers_are_written_plainly(n as nat, 0);
    reveal_with_fuel(text::decimal, 4);
    assert(d.len() <= 3);
    assert(n < 10 ==> d.len() == 1);
    assert forall|i: int| 0 <= i < d.len() implies #[trigger] d[i] != '.' by {
        assert(text::is_digit(d[i]));
    }
}

/// An address is read exactly as it is written: four numbers up to 255 without
/// zeros ahead, with dots between them. Nothing else is an address.
pub proof fn law_addresses_are_read_as_written(bits: int, s: Seq<char>)
    requires
        0 <= bits <= 0xffff_ffff,
    ensures
        dotted_value(dotted(bits)) == Some(bits),
        dotted_value(s) matches Some(v) ==> 0 <= v <= 0xffff_ffff && s == dotted(v),
{
    reveal_strlit(".");
    assert("."@ =~= seq!['.']);
    let a = octet(bits, 0);
    let b = octet(bits, 1);
    let c = octet(bits, 2);
    let d = octet(bits, 3);
    assert(of_octets(a, b, c, d) == bits);
    lemma_octet_value(a);
    lemma_octet_value(b);
    lemma_octet_value(c);
    lemma_octet_value(d);
    let parts = seq![
        text::decimal(a as nat),
        text::decimal(b as nat),
        text::decimal(c as nat),
        text::decimal(d as nat),
    ];
    lemma_four_joined(parts);
    assert(dotted(bits) =~= text::joined(parts, '.'));
    assert forall|i: int, j: int| 0 <= i < parts.len() && 0 <= j < parts[i].len() implies #[trigger] parts[i][j]
        != '.' by {
        if i == 0 {
        } else if i == 1 {
        } else if i == 2 {
        } else {
        }
    }
    text::law_split_undoes_joining(parts, '.');
    if dotted_value(s) is Some {
        let p = text::split(s, '.');
        text::law_split_pieces_join_to_the_text(s, '.');
        lemma_plain_number(p[0]);
        lemma_plain_number(p[1]);
        lemma_plain_number(p[2]);
        lemma_plain_number(p[3]);
        lemma_four_joined(p);
        let w = text::number(p[0]);
        let x = text::number(p[1]);
        let y = text::number(p[2]);
        let z = text::number(p[3]);
        law_addresses_are_four_numbers(w, x, y, z);
        assert(s =~= dotted(of_octets(w, x, y, z)));
    }
}

proof fn lemma_four_joined(p: Seq<Seq<char>>)
    requires
        p.len() == 4,
    ensures
        text::joined(p, '.') == p[0] + seq!['.'] + p[1] + seq!['.'] + p[2] + seq!['.'] + p[3],
{
    let q = p.drop_first();
    let r = q.drop_first();
    let s = r.drop_first();
    assert(q[0] == p[1] && r[0] == p[2] && s[0] == p[3]);
    assert(text::joined(s, '.') == p[3]);
    assert(text::joined(r, '.') == p[2].push('.') + p[3]);
    assert(text::joined(q, '.') == p[1].push('.') + (p[2].push('.') + p[3]));
    assert(text::joined(p, '.') == p[0].push('.') + (p[1].push('.') + (p[2].push('.') + p[3])));
    assert(text::joined(p, '.') =~= p[0] + seq!['.'] + p[1] + seq!['.'] + p[2] + seq!['.'] + p[3]);
}

/// Private addresses are those of the three private blocks and of the block for
/// links, from their first to their last.
pub proof fn law_private_addresses(bits: int)
    requires
        0 <= bits <= 0xffff_ffff,
    ensures
        is_private_bits(bits) <==> {
            ||| of_octets(10, 0, 0, 0) <= bits <= of_octets(10, 255, 255, 255)
            ||| of_octets(172, 16, 0, 0) <= bits <= of_octets(172, 31, 255, 255)
            ||| of_octets(192, 168, 0, 0) <= bits <= of_octets(192, 168, 255, 255)
            ||| of_octets(169, 254, 0, 0) <= bits <= of_octets(169, 254, 255, 255)
        },
{
    lemma_private_blocks(bits);
    assert(bits / 0x100_0000 == 10 <==> 10 * 0x100_0000 <= bits < 11 * 0x100_0000);
    assert(bits / 0x10_0000 == 2753 <==> 2753 * 0x10_0000 <= bits < 2754 * 0x10_0000);
    assert(bits / 0x1_0000 == 49320 <==> 49320 * 0x1_0000 <= bits < 49321 * 0x1_0000);
    assert(bits / 0x1_0000 == 43518 <==> 43518 * 0x1_0000 <= bits < 43519 * 0x1_0000);
}

/// A network with a prefix of `p` bits holds two to the power of the other bits
/// addresses; that of an address starts at a multiple of this and holds the
/// address.
pub proof fn law_networks_hold_their_addresses(bits: int, prefix: int)
    requires
        0 <= bits <= 0xffff_ffff,
        0 <= prefix <= 32,
    ensures
        block_size(prefix) == vstd::arithmetic::power2::pow2((32 - prefix) as nat),
        network_of(bits, prefix) <= bits < network_of(bits, prefix) + block_size(prefix),
        network_of(bits, prefix) % block_size(prefix) == 0,
{
    lemma_block_is_power(prefix);
    lemma_block_size(prefix);
    let k = block_size(prefix);
    if prefix == 0 {
        lemma_block_sizes();
        assert(0int % k == 0) by (nonlinear_arith)
            requires
                k > 0,
        ;
    } else {
        vstd::arithmetic::div_mod::lemma_fundamental_div_mod(bits, k);
        let q = bits / k;
        assert(0 <= bits % k < k) by (nonlinear_arith)
            requires
                k > 0,
        ;
        assert(network_of(bits, prefix) == k * q);
        assert((k * q) % k == 0) by {
            vstd::arithmetic::div_mod::lemma_mod_multiples_basic(q, k);
            assert(q * k == k * q) by (nonlinear_arith);
        }
    }
}

proof fn lemma_block_is_power(prefix: int)
    requires
        0 <= prefix <= 32,
    ensures
        block_size(prefix) == vstd::arithmetic::power2::pow2((32 - prefix) as nat),
    decreases 32 - prefix,
{
    if prefix < 32 {
        lemma_block_is_power(prefix + 1);
        vstd::arithmetic::power2::lemma_pow2_unfold((32 - prefix) as nat);
    } else {
        vstd::arithmetic::power2::lemma2_to64();
    }
}

/// The hosts of a network are all of its addresses but the first and the last; a
/// network too small for that has none.
pub proof fn law_hosts_are_between_the_ends(seg: &NetSegment, r: Vec<Ipv4Addr>, ip: Ipv4Addr)
    requires
        call_ensures(NetSegment::hosts, (seg,), r),
        1 <= seg.prefix,
    ensures
        seg.prefix > 30 ==> r@.len() == 0,
        seg.prefix <= 30 ==> (r@.contains(ip) <==> ({
            let first = network_of(seg.network.bits as int, seg.prefix as int);
            first < ip.bits < first + block_size(seg.prefix as int) - 1
        })),
        r@.no_duplicates(),
{
    let first = network_of(seg.network.bits as int, seg.prefix as int);
    if seg.prefix <= 30 {
        if r@.contains(ip) {
            let k = choose|k: int| 0 <= k < r@.len() && r@[k] == ip;
            assert(r@[k].bits == host_bits(*seg, k + 1));
        }
        if first < ip.bits < first + block_size(seg.prefix as int) - 1 {
            let k = ip.bits - first - 1;
            assert(r@[k].bits == host_bits(*seg, k + 1));
            assert(r@[k] == ip);
        }
    }
    assert forall|i: int, j: int| 0 <= i < r@.len() && 0 <= j < r@.len() && i != j implies r@[i] != r@[j] by {
        assert(r@[i].bits == host_bits(*seg, i + 1));
        assert(r@[j].bits == host_bits(*seg, j + 1));
    }
}

// ---------- what is scanned ----------

/// An interface is virtual exactly if its name, in lower case, starts like those
/// of containers, bridges, tunnels, virtual machines and the loop.
pub proof fn law_virtual_interfaces(name: Seq<char>)
    ensures
        is_virtual(name) <==> {
            let n = text::ascii_lowered(name);
            ||| text::starts_with(n, "docker"@)
            ||| text::starts_with(n, "veth"@)
            ||| text::starts_with(n, "br-"@)
            ||| text::starts_with(n, "virbr"@)
            ||| text::starts_with(n, "vmnet"@)
            ||| text::starts_with(n, "vboxnet"@)
            ||| text::starts_with(n, "utun"@)
            ||| text::starts_with(n, "tun"@)
            ||| text::starts_with(n, "tap"@)
            ||| text::starts_with(n, "wg"@)
            ||| text::starts_with(n, "zt"@)
            ||| text::starts_with(n, "lo"@)
            ||| text::starts_with(n, "ppp"@)
            ||| text::starts_with(n, "tailscale"@)
        },
{
    let p = virtual_prefixes();
    assert(p[0] == "docker"@ && p[1] == "veth"@ && p[2] == "br-"@ && p[3] == "virbr"@ && p[4] == "vmnet"@);
    assert(p[5] == "vboxnet"@ && p[6] == "utun"@ && p[7] == "tun"@ && p[8] == "tap"@ && p[9] == "wg"@);
    assert(p[10] == "zt"@ && p[11] == "lo"@ && p[12] == "ppp"@ && p[13] == "tailscale"@);
    assert(p.len() == 14);
}

/// The networks to scan are those of the real interfaces that are private and
/// have hosts, each once, whatever the address of the interface in it.
pub proof fn law_own_private_networks_are_scanned(
    ifaces: Seq<(String, Ipv4Addr, u8)>,
    n: int,
    seg: NetSegment,
)
    requires
        0 <= n <= ifaces.len(),
        forall|i: int| 0 <= i < ifaces.len() ==> (#[trigger] ifaces[i]).2 <= 32,
    ensures
        candidates(ifaces, n).contains(seg) <==> exists|i: int|
            {
                &&& 0 <= i < n
                &&& !is_virtual((#[trigger] ifaces[i]).0@)
                &&& 1 <= ifaces[i].2 <= 30
                &&& seg.prefix == ifaces[i].2
                &&& seg.network.bits == network_of(ifaces[i].1.bits as int, ifaces[i].2 as int)
                &&& is_private_bits(seg.network.bits as int)
            },
    decreases n,
{
    if n > 0 {
        law_own_private_networks_are_scanned(ifaces, n - 1, seg);
        let head = candidates(ifaces, n - 1);
        let (name, ip, prefix) = ifaces[n - 1];
        law_networks_hold_their_addresses(ip.bits as int, prefix as int);
        lemma_network_not_negative(ip.bits as int, prefix as int);
        let new = NetSegment {
            network: Ipv4Addr { bits: network_of(ip.bits as int, prefix as int) as u32 },
            prefix,
        };
        let all = head.push(new);
        assert(all[head.len() as int] == new);
        if head.contains(seg) {
            let k = choose|k: int| 0 <= k < head.len() && head[k] == seg;
            assert(all[k] == seg);
        }
        if all.contains(seg) {
            let k = choose|k: int| 0 <= k < all.len() && all[k] == seg;
            if k < head.len() {
                assert(head[k] == seg);
            }
        }
        assert(ifaces[n - 1].0 == name && ifaces[n - 1].1 == ip && ifaces[n - 1].2 == prefix);
        if seg.prefix == prefix && seg.network.bits == network_of(ip.bits as int, prefix as int) {
            assert(seg == new);
        }
    }
}

proof fn lemma_network_not_negative(bits: int, prefix: int)
    requires
        0 <= bits <= 0xffff_ffff,
        0 <= prefix <= 32,
    ensures
        0 <= network_of(bits, prefix) <= 0xffff_ffff,
{
    lemma_block_size(prefix);
    let k = block_size(prefix);
    assert(0 <= bits % k <= bits) by (nonlinear_arith)
        requires
            k > 0,
            0 <= bits,
    ;
}

/// The neighbours are the private addresses that start a line, each once.
pub proof fn law_neighbors_start_their_lines(lines: Seq<Seq<char>>, n: int, ip: int)
    requires
        0 <= n <= lines.len(),
    ensures
        neighbors_of(lines, n).contains(ip) <==> is_private_bits(ip) && exists|i: int|
            {
                &&& 0 <= i < n
                &&& text::words(#[trigger] lines[i]).len() > 0
                &&& dotted_value(text::words(lines[i])[0]) == Some(ip)
            },
    decreases n,
{
    if n > 0 {
        law_neighbors_start_their_lines(lines, n - 1, ip);
        let head = neighbors_of(lines, n - 1);
        let w = text::words(lines[n - 1]);
        if w.len() > 0 && dotted_value(w[0]) is Some {
            let x = dotted_value(w[0])->0;
            let all = head.push(x);
            assert(all[head.len() as int] == x);
            if head.contains(ip) {
                let k = choose|k: int| 0 <= k < head.len() && head[k] == ip;
                assert(all[k] == ip);
            }
            if all.contains(ip) {
                let k = choose|k: int| 0 <= k < all.len() && all[k] == ip;
                if k < head.len() {
                    assert(head[k] == ip);
                }
            }
        }
    }
}

/// An address with a prefix is read as it is written: the address, a slash and up
/// to 32 bits.
pub proof fn law_prefixes_are_read(bits: int, p: nat)
    requires
        0 <= bits <= 0xffff_ffff,
    ensures
        p <= 32 ==> cidr_value(dotted(bits) + seq!['/'] + text::decimal(p)) == Some((bits, p as int)),
        p > 32 ==> cidr_value(dotted(bits) + seq!['/'] + text::decimal(p)) is None,
        cidr_value(dotted(bits)) is None,
{
    let ip = dotted(bits);
    let num = text::decimal(p);
    let s = ip + seq!['/'] + num;
    law_addresses_are_read_as_written(bits, ip);
    text::law_written_numbers_are_read(p, 255, num);
    assert forall|i: int| 0 <= i < ip.len() implies #[trigger] ip[i] != '/' by {
        lemma_dotted_chars(bits, i);
    }
    text::lemma_first_index(s, '/');
    text::lemma_first_index(ip, '/');
    assert(s[ip.len() as int] == '/');
    if text::first_index(s, '/') < ip.len() {
        assert(ip[text::first_index(s, '/')] != '/');
    }
    assert(s.take(ip.len() as int) =~= ip);
    assert(s.skip(ip.len() as int + 1) =~= num);
    if text::first_index(ip, '/') < ip.len() {
        assert(ip[text::first_index(ip, '/')] != '/');
    }
}

proof fn lemma_dotted_chars(bits: int, i: int)
    requires
        0 <= i < dotted(bits).len(),
    ensures
        dotted(bits)[i] == '.' || '0' <= dotted(bits)[i] <= '9',
{
    reveal_strlit(".");
    let a = text::decimal(octet(bits, 0) as nat);
    let b = text::decimal(octet(bits, 1) as nat);
    let c = text::decimal(octet(bits, 2) as nat);
    let d = text::decimal(octet(bits, 3) as nat);
    text::lemma_number_of_decimal(octet(bits, 0) as nat);
    text::lemma_number_of_decimal(octet(bits, 1) as nat);
    text::lemma_number_of_decimal(octet(bits, 2) as nat);
    text::lemma_number_of_decimal(octet(bits, 3) as nat);
    let s = dotted(bits);
    let x = a.len() as int;
    let y = x + 1 + b.len();
    let z = y + 1 + c.len();
    if i < x {
        assert(s[i] == a[i]);
        assert(text::is_digit(a[i]));
    } else if i == x {
        assert(s[i] == '.');
    } else if i < y {
        assert(s[i] == b[i - x - 1]);
        assert(text::is_digit(b[i - x - 1]));
    } else if i == y {
        assert(s[i] == '.');
    } else if i < z {
        assert(s[i] == c[i - y - 1]);
        assert(text::is_digit(c[i - y - 1]));
    } else if i == z {
        assert(s[i] == '.');
    } else {
        assert(s[i] == d[i - z - 1]);
        assert(text::is_digit(d[i - z - 1]));
    }
}

proof fn lemma_word_index(words: Seq<Seq<char>>, w: Seq<char>, k: int)
    requires
        0 <= k <= words.len(),
        forall|j: int| 0 <= j < k ==> #[trigger] words[j] != w,
        k < words.len() ==> words[k] == w,
    ensures
        word_index(words, w) == k,
    decreases words.len(),
{
    if words.len() > 0 && k > 0 {
        assert(words[0] != w);
        let rest = words.drop_first();
        assert forall|j: int| 0 <= j < k - 1 implies #[trigger] rest[j] != w by {
            assert(words[j + 1] != w);
        }
        lemma_word_index(rest, w, k - 1);
    }
}

/// A line lists an interface where it starts with a number and a colon, names the
/// interface next, and gives an address with a prefix behind the first `inet`;
/// no other line does.
pub proof fn law_interfaces_are_read_from_their_lines(cols: Seq<Seq<char>>, k: int)
    requires
        0 <= k <= cols.len(),
        forall|j: int| 0 <= j < k ==> #[trigger] cols[j] != "inet"@,
        k < cols.len() ==> cols[k] == "inet"@,
    ensures
        iface_of(cols) is Some <==> {
            &&& cols.len() >= 2
            &&& exists|t: Seq<char>| cols[0] == #[trigger] (t + ":"@)
            &&& !(exists|t: Seq<char>| cols[1] == #[trigger] ("inet"@ + t))
            &&& k + 1 < cols.len()
            &&& cidr_value(cols[k + 1]) is Some
        },
        iface_of(cols) matches Some(f) ==> f.0 == cols[1] && cidr_value(cols[k + 1]) == Some((f.1, f.2)),
{
    lemma_word_index(cols, "inet"@, k);
    if cols.len() >= 2 {
        text::law_parts_of_a_text(cols[0], ":"@);
        text::law_parts_of_a_text(cols[1], "inet"@);
    }
}

/// A machine is asked at its address and at the port that is known, or at the ten
/// ports from 4180 on.
pub proof fn law_machines_are_asked_at_their_ports(bits: int, known: Option<u16>, u: Seq<char>)
    ensures
        machine_urls(bits, ports_of(known)).contains(u) <==> exists|p: u16|
            {
                &&& match known {
                    Some(k) => p == k,
                    None => 4180 <= p < 4190,
                }
                &&& u == #[trigger] asked_at(bits, p)
            },
{
    let ports = ports_of(known);
    let urls = machine_urls(bits, ports);
    if urls.contains(u) {
        let i = choose|i: int| 0 <= i < urls.len() && urls[i] == u;
        assert(u == asked_at(bits, ports[i]));
    }
    assert forall|p: u16|
        {
            &&& match known {
                Some(k) => p == k,
                None => 4180 <= p < 4190,
            }
            &&& u == #[trigger] asked_at(bits, p)
        } implies urls.contains(u) by {
        let i = if known is Some {
            0int
        } else {
            p - 4180
        };
        assert(ports[i] == p);
        assert(urls[i] == u);
    }
}

/// The address of a machine at a port.
pub open spec fn asked_at(bits: int, port: u16) -> Seq<char> {
    "http://"@ + dotted(bits) + ":"@ + text::decimal(port as nat)
}

proof fn lemma_url_in_either(a: Seq<Seq<char>>, b: Seq<Seq<char>>, x: Seq<char>)
    ensures
        (a + b).contains(x) <==> a.contains(x) || b.contains(x),
{
    let s = a + b;
    if s.contains(x) {
        let k = choose|k: int| 0 <= k < s.len() && s[k] == x;
        if k < a.len() {
            assert(a[k] == x);
        } else {
            assert(b[k - a.len()] == x);
        }
    }
    if a.contains(x) {
        let k = choose|k: int| 0 <= k < a.len() && a[k] == x;
        assert(s[k] == x);
    }
    if b.contains(x) {
        let k = choose|k: int| 0 <= k < b.len() && b[k] == x;
        assert(s[a.len() + k] == x);
    }
}

/// Every neighbour is asked at each of the ports, and nobody else.
pub proof fn law_every_neighbor_is_asked(neighbors: Seq<Ipv4Addr>, ports: Seq<u16>, n: int, u: Seq<char>)
    requires
        0 <= n <= neighbors.len(),
    ensures
        neighbor_urls(neighbors, ports, n).contains(u) <==> exists|i: int|
            0 <= i < n && machine_urls((#[trigger] neighbors[i]).bits as int, ports).contains(u),
    decreases n,
{
    if n > 0 {
        law_every_neighbor_is_asked(neighbors, ports, n - 1, u);
        lemma_url_in_either(
            neighbor_urls(neighbors, ports, n - 1),
            machine_urls(neighbors[n - 1].bits as int, ports),
            u,
        );
    }
}

proof fn lemma_host_urls(seg: NetSegment, neighbors: Seq<int>, ports: Seq<u16>, n: int, u: Seq<char>)
    ensures
        host_urls(seg, neighbors, ports, n).contains(u) <==> exists|i: int|
            1 <= i <= n && !neighbors.contains(#[trigger] host_bits(seg, i)) && machine_urls(
                host_bits(seg, i),
                ports,
            ).contains(u),
    decreases n,
{
    if n > 0 {
        lemma_host_urls(seg, neighbors, ports, n - 1, u);
        lemma_url_in_either(
            host_urls(seg, neighbors, ports, n - 1),
            machine_urls(host_bits(seg, n), ports),
            u,
        );
        if host_urls(seg, neighbors, ports, n - 1).contains(u) {
            let i = choose|i: int|
                1 <= i <= n - 1 && !neighbors.contains(#[trigger] host_bits(seg, i)) && machine_urls(
                    host_bits(seg, i),
                    ports,
                ).contains(u);
            assert(1 <= i <= n && !neighbors.contains(host_bits(seg, i)));
        }
    }
}

/// Every host of every network is asked at each of the ports, but for those that
/// were asked as neighbours; of more than 1024 addresses the first are asked.
pub proof fn law_every_host_is_asked(
    subnets: Seq<NetSegment>,
    neighbors: Seq<int>,
    ports: Seq<u16>,
    n: int,
    u: Seq<char>,
)
    requires
        0 <= n <= subnets.len(),
    ensures
        ({
            let all = subnet_urls(subnets, neighbors, ports, n);
            &&& all.contains(u) <==> exists|k: int, i: int|
                {
                    &&& 0 <= k < n
                    &&& 1 <= i <= host_count((#[trigger] subnets[k]).prefix as int)
                    &&& !neighbors.contains(#[trigger] host_bits(subnets[k], i))
                    &&& machine_urls(host_bits(subnets[k], i), ports).contains(u)
                }
            &&& all.len() <= 1024 ==> capped(all) == all
            &&& all.len() > 1024 ==> capped(all) == all.take(1024)
        }),
    decreases n,
{
    if n > 0 {
        law_every_host_is_asked(subnets, neighbors, ports, n - 1, u);
        let seg = subnets[n - 1];
        let last = host_urls(seg, neighbors, ports, host_count(seg.prefix as int));
        let head = subnet_urls(subnets, neighbors, ports, n - 1);
        lemma_url_in_either(head, last, u);
        lemma_host_urls(seg, neighbors, ports, host_count(seg.prefix as int), u);
        if last.contains(u) {
            let i = choose|i: int|
                1 <= i <= host_count(seg.prefix as int) && !neighbors.contains(#[trigger] host_bits(seg, i))
                    && machine_urls(host_bits(seg, i), ports).contains(u);
            assert(1 <= i <= host_count(subnets[n - 1].prefix as int) && !neighbors.contains(
                host_bits(subnets[n - 1], i),
            ));
        }
        if head.contains(u) {
            let (k, i) = choose|k: int, i: int|
                {
                    &&& 0 <= k < n - 1
                    &&& 1 <= i <= host_count((#[trigger] subnets[k]).prefix as int)
                    &&& !neighbors.contains(#[trigger] host_bits(subnets[k], i))
                    &&& machine_urls(host_bits(subnets[k], i), ports).contains(u)
                };
            assert(1 <= i <= host_count(subnets[k].prefix as int) && !neighbors.contains(host_bits(subnets[k], i)));
        }
        assert forall|k: int, i: int|
            {
                &&& 0 <= k < n
                &&& 1 <= i <= host_count((#[trigger] subnets[k]).prefix as int)
                &&& !neighbors.contains(#[trigger] host_bits(subnets[k], i))
                &&& machine_urls(host_bits(subnets[k], i), ports).contains(u)
            } implies head.contains(u) || last.contains(u) by {
            if k < n - 1 {
                assert(head.contains(u));
            } else {
                assert(!neighbors.contains(host_bits(seg, i)));
            }
        }
    }
}

/// Of several answers from one address the first counts, and no answer is made
/// up.
pub proof fn law_first_answer_counts(found: Seq<ScannedDeviceView>, k: int, d: ScannedDeviceView)
    requires
        0 <= k < found.len(),
    ensures
        unique_devices(found).contains(d) ==> found.contains(d),
        (forall|j: int| 0 <= j < k ==> (#[trigger] found[j]).url != found[k].url) ==> unique_devices(found).contains(
            found[k],
        ),
    decreases found.len(),
{
    let rest = found.drop_last();
    let head = unique_devices(rest);
    let all = unique_devices(found);
    assert(found[found.len() - 1] == found.last());
    if all.contains(d) {
        let i = choose|i: int| 0 <= i < all.len() && all[i] == d;
        if i < head.len() {
            assert(head[i] == d);
            lemma_unique_from(rest, i);
            let j = choose|j: int| 0 <= j < rest.len() && rest[j] == d;
            assert(found[j] == d);
        } else {
            assert(d == found.last());
        }
    }
    if forall|j: int| 0 <= j < k ==> (#[trigger] found[j]).url != found[k].url {
        if k < rest.len() {
            assert forall|j: int| 0 <= j < k implies (#[trigger] rest[j]).url != rest[k].url by {
                assert(found[j].url != found[k].url);
            }
            law_first_answer_counts(rest, k, d);
            assert(rest[k] == found[k]);
            let i = choose|i: int| 0 <= i < head.len() && head[i] == found[k];
            assert(all[i] == found[k]);
        } else {
            if has_url(head, found.last().url) {
                let i = choose|i: int| 0 <= i < head.len() && (#[trigger] head[i]).url == found.last().url;
                lemma_unique_from(rest, i);
                let j = choose|j: int| 0 <= j < rest.len() && rest[j] == head[i];
                assert(found[j].url == found[k].url);
            }
            assert(all[head.len() as int] == found[k]);
        }
    }
}

proof fn lemma_unique_from(found: Seq<ScannedDeviceView>, i: int)
    requires
        0 <= i < unique_devices(found).len(),
    ensures
        found.contains(unique_devices(found)[i]),
    decreases found.len(),
{
    let rest = found.drop_last();
    let head = unique_devices(rest);
    if i < head.len() {
        lemma_unique_from(rest, i);
        let j = choose|j: int| 0 <= j < rest.len() && rest[j] == head[i];
        assert(found[j] == head[i]);
    } else {
        assert(found[found.len() - 1] == unique_devices(found)[i]);
    }
}

// ---------- who is asked, and when it ends ----------

/// Whether a batch of these addresses always brings an answer.
pub open spec fn always_answers<P: BatchProbe>(probe: &P, urls: Seq<Seq<char>>) -> bool {
    forall|batch: Vec<String>, answer: (Vec<ScannedDevice>, bool)|
        text::views(batch@) == urls && #[trigger] call_ensures(P::probe_batch, (probe, &batch, false), answer)
            ==> answer.0@.len() > 0
}

/// Whether there is nothing to ask, or a batch of these addresses never brings an
/// answer.
pub open spec fn never_answers<P: BatchProbe>(probe: &P, urls: Seq<Seq<char>>) -> bool {
    urls.len() == 0 || forall|batch: Vec<String>, answer: (Vec<ScannedDevice>, bool)|
        text::views(batch@) == urls && #[trigger] call_ensures(P::probe_batch, (probe, &batch, false), answer)
            ==> answer.0@.len() == 0
}

/// Whether a scan found what a batch of these addresses brought, each device once,
/// and says whether the batch was late.
pub open spec fn found_at<P: BatchProbe>(
    probe: &P,
    urls: Seq<Seq<char>>,
    limited: bool,
    r: ScanOutcome,
    late: bool,
) -> bool {
    exists|batch: Vec<String>, answer: (Vec<ScannedDevice>, bool)|
        {
            &&& #[trigger] call_ensures(P::probe_batch, (probe, &batch, limited), answer)
            &&& text::views(batch@) == urls
            &&& text::views(r.devices@) == unique_devices(text::views(answer.0@))
            &&& late == answer.1
        }
}

/// A scan ends with the first sort of addresses that brings an answer: the known
/// ones, then the neighbours, then the networks. It finds what these brought and
/// nothing else. The networks are asked only with leave and within a limit of
/// time, and the scan says that it was cut off exactly where that limit was met
/// or there were as many addresses as may be asked.
pub proof fn law_scan_ends_with_the_first_answer<P: BatchProbe>(plan: &ScanPlan, probe: &P, r: ScanOutcome)
    requires
        call_ensures(run_scan_with::<P>, (plan, probe), r),
    ensures
        ({
            let known = text::views(plan.known@);
            let near = plan.spec_neighbor_urls();
            let all = plan.spec_subnet_urls();
            &&& known.len() > 0 && always_answers(probe, known) ==> !r.truncated && exists|late: bool|
                found_at(probe, known, false, r, late)
            &&& never_answers(probe, known) && plan.neighbors@.len() > 0 && near.len() > 0 && always_answers(
                probe,
                near,
            ) ==> !r.truncated && exists|late: bool| found_at(probe, near, false, r, late)
            &&& never_answers(probe, known) && never_answers(probe, near) ==> if plan.allow_subnet
                && plan.subnets@.len() > 0 {
                exists|late: bool| #[trigger]
                    found_at(probe, all, true, r, late) && r.truncated == (all.len() >= 1024 || late)
            } else {
                r.devices@.len() == 0 && !r.truncated
            }
        }),
{
    let known = text::views(plan.known@);
    let near = plan.spec_neighbor_urls();
    let all = plan.spec_subnet_urls();
    assert(known.len() == plan.known@.len());
    if plan.neighbors@.len() == 0 {
        assert(near.len() == 0);
    }
    lemma_always(probe, known);
    lemma_always(probe, near);
    lemma_never(probe, known, r);
    lemma_never(probe, near, r);
    if batch_outcome(probe, known, false, false, r) {
        lemma_found_at(probe, known, false, false, r);
    }
    if batch_outcome(probe, near, false, false, r) {
        lemma_found_at(probe, near, false, false, r);
    }
    if batch_outcome(probe, all, true, all.len() >= MAX_CANDIDATES, r) {
        lemma_found_at(probe, all, true, all.len() >= MAX_CANDIDATES, r);
    }
}

proof fn lemma_found_at<P: BatchProbe>(probe: &P, urls: Seq<Seq<char>>, limited: bool, capped: bool, r: ScanOutcome)
    requires
        batch_outcome(probe, urls, limited, capped, r),
    ensures
        exists|late: bool| #[trigger]
            found_at(probe, urls, limited, r, late) && r.truncated == (capped || (limited && late)),
{
    let (batch, answer) = choose|batch: Vec<String>, answer: (Vec<ScannedDevice>, bool)|
        {
            &&& #[trigger] call_ensures(P::probe_batch, (probe, &batch, limited), answer)
            &&& text::views(batch@) == urls
            &&& text::views(r.devices@) == unique_devices(text::views(answer.0@))
            &&& r.truncated == (capped || (limited && answer.1))
        };
    assert(found_at(probe, urls, limited, r, answer.1));
}

proof fn lemma_always<P: BatchProbe>(probe: &P, urls: Seq<Seq<char>>)
    ensures
        urls.len() > 0 && always_answers(probe, urls) ==> !passed(probe, urls),
{
    if urls.len() > 0 && always_answers(probe, urls) && passed(probe, urls) {
        let out = choose|out: ScanOutcome|
            out.devices@.len() == 0 && #[trigger] batch_outcome(probe, urls, false, false, out);
        let (batch, answer) = choose|batch: Vec<String>, answer: (Vec<ScannedDevice>, bool)|
            {
                &&& #[trigger] call_ensures(P::probe_batch, (probe, &batch, false), answer)
                &&& text::views(batch@) == urls
                &&& text::views(out.devices@) == unique_devices(text::views(answer.0@))
                &&& out.truncated == (false || (false && answer.1))
            };
        law_found_devices_are_unique(text::views(answer.0@));
        assert(text::views(out.devices@).len() == out.devices@.len());
        assert(text::views(answer.0@).len() == answer.0@.len());
    }
}

proof fn lemma_never<P: BatchProbe>(probe: &P, urls: Seq<Seq<char>>, r: ScanOutcome)
    ensures
        urls.len() > 0 && never_answers(probe, urls) && batch_outcome(probe, urls, false, false, r)
            ==> r.devices@.len() == 0,
{
    if urls.len() > 0 && never_answers(probe, urls) && batch_outcome(probe, urls, false, false, r) {
        let (batch, answer) = choose|batch: Vec<String>, answer: (Vec<ScannedDevice>, bool)|
            {
                &&& #[trigger] call_ensures(P::probe_batch, (probe, &batch, false), answer)
                &&& text::views(batch@) == urls
                &&& text::views(r.devices@) == unique_devices(text::views(answer.0@))
                &&& r.truncated == (false || (false && answer.1))
            };
        law_found_devices_are_unique(text::views(answer.0@));
        assert(text::views(r.devices@).len() == r.devices@.len());
        assert(text::views(answer.0@).len() == answer.0@.len());
    }
}

/// Who asks in turn asks every address of a batch, and finds each device that
/// answers; in a limited batch every address before the time was up, which is
/// three seconds after it began.
pub proof fn law_each_address_is_asked<P: InfoProbe, E: Fn(usize) -> u64>(
    turn: &InTurn<P, E>,
    urls: &Vec<String>,
    limited: bool,
    r: (Vec<ScannedDevice>, bool),
    i: int,
)
    requires
        call_ensures(<InTurn<P, E> as BatchProbe>::probe_batch, (turn, urls, limited), r),
        0 <= i < urls@.len(),
        !r.1 || (forall|n: usize, t: u64|
            n <= i && #[trigger] call_ensures(turn.elapsed, (n,), t) ==> t < 3000),
    ensures
        !limited ==> !r.1,
        exists|u: &str, a: Option<ScannedDevice>|
            {
                &&& #[trigger] call_ensures(P::probe, (turn.probe, u), a)
                &&& u@ == urls@[i]@
                &&& a matches Some(d) ==> r.0@.contains(d)
            },
{
    let all = text::views(urls@);
    assert(all[i] == urls@[i]@);
    if !limited {
        lemma_asked(turn.probe, all, r.0@, i);
    } else {
        let n = choose|n: int|
            {
                &&& 0 <= n <= all.len()
                &&& #[trigger] asked_in_turn(turn.probe, all.take(n), r.0@)
                &&& in_time_to(turn.elapsed, n)
                &&& r.1 == (n < all.len())
                &&& r.1 ==> time_up(turn.elapsed, n)
            };
        if r.1 && n <= i {
            let (m, t) = choose|m: usize, t: u64| #[trigger]
                call_ensures(turn.elapsed, (m,), t) && m == n && t >= L2_BUDGET_MS;
            assert(false);
        }
        assert(i < n);
        assert(all.take(n)[i] == all[i]);
        lemma_asked(turn.probe, all.take(n), r.0@, i);
    }
}

proof fn lemma_asked<P: InfoProbe>(probe: &P, urls: Seq<Seq<char>>, found: Seq<ScannedDevice>, i: int)
    requires
        asked_in_turn(probe, urls, found),
        0 <= i < urls.len(),
    ensures
        exists|u: &str, a: Option<ScannedDevice>|
            {
                &&& #[trigger] call_ensures(P::probe, (probe, u), a)
                &&& u@ == urls[i]
                &&& a matches Some(d) ==> found.contains(d)
            },
{
    let answers = choose|answers: Seq<Option<ScannedDevice>>|
        {
            &&& answers.len() == urls.len()
            &&& forall|i: int| 0 <= i < urls.len() ==> answered(probe, urls[i], #[trigger] answers[i])
            &&& found == #[trigger] devices_in(answers)
        };
    let a = answers[i];
    assert(answered(probe, urls[i], a));
    let u = choose|u: &str| u@ == urls[i] && #[trigger] call_ensures(P::probe, (probe, u), a);
    if a is Some {
        lemma_devices_in(answers, i);
    }
    assert(call_ensures(P::probe, (probe, u), a));
}

proof fn lemma_devices_in(answers: Seq<Option<ScannedDevice>>, i: int)
    requires
        0 <= i < answers.len(),
        answers[i] is Some,
    ensures
        devices_in(answers).contains(answers[i]->0),
    decreases answers.len(),
{
    reveal(Seq::filter_map);
    let rest = answers.drop_last();
    let head = devices_in(rest);
    let all = devices_in(answers);
    if i < rest.len() {
        lemma_devices_in(rest, i);
        let k = choose|k: int| 0 <= k < head.len() && head[k] == answers[i]->0;
        assert(all[k] == answers[i]->0);
    } else {
        assert(all[head.len() as int] == answers[i]->0);
    }
}

// ---------- what the system says ----------

/// What the system says of its interfaces and neighbours is read line by line: an
/// interface is listed exactly if one of the lines lists it, and a neighbour
/// exactly if a line starts with it and it is private.
pub proof fn law_output_is_read_line_by_line(
    lines: Seq<Seq<char>>,
    addresses: &str,
    ifaces: Vec<(String, Ipv4Addr, u8)>,
    neighbors: &str,
    near: Vec<Ipv4Addr>,
    f: (Seq<char>, int, int),
    ip: Ipv4Addr,
)
    requires
        lines.len() > 0,
        forall|i: int, j: int| 0 <= i < lines.len() && 0 <= j < lines[i].len() ==> #[trigger] lines[i][j] != '\n',
        addresses@ == text::joined(lines, '\n'),
        neighbors@ == text::joined(lines, '\n'),
        call_ensures(parse_ip_addr_output, (addresses,), ifaces),
        call_ensures(parse_ip_neigh_output, (neighbors,), near),
    ensures
        iface_views(ifaces@).contains(f) <==> exists|i: int|
            0 <= i < lines.len() && iface_of(text::words(#[trigger] lines[i])) == Some(f),
        near@.contains(ip) <==> is_private_bits(ip.bits as int) && exists|i: int|
            {
                &&& 0 <= i < lines.len()
                &&& text::words(#[trigger] lines[i]).len() > 0
                &&& dotted_value(text::words(lines[i])[0]) == Some(ip.bits as int)
            },
{
    text::law_split_undoes_joining(lines, '\n');
    let g = |line: Seq<char>| iface_of(text::words(line));
    lemma_listed(lines, g, f);
    law_neighbors_start_their_lines(lines, lines.len() as int, ip.bits as int);
    let bits = bits_of(near@);
    if near@.contains(ip) {
        let k = choose|k: int| 0 <= k < near@.len() && near@[k] == ip;
        assert(bits[k] == ip.bits);
    }
    if bits.contains(ip.bits as int) {
        let k = choose|k: int| 0 <= k < bits.len() && bits[k] == ip.bits as int;
        assert(near@[k] == ip);
    }
}

proof fn lemma_listed(
    s: Seq<Seq<char>>,
    g: spec_fn(Seq<char>) -> Option<(Seq<char>, int, int)>,
    x: (Seq<char>, int, int),
)
    ensures
        s.filter_map(g).contains(x) <==> exists|i: int| 0 <= i < s.len() && g(#[trigger] s[i]) == Some(x),
    decreases s.len(),
{
    reveal(Seq::filter_map);
    if s.len() > 0 {
        let rest = s.drop_last();
        let head = rest.filter_map(g);
        let all = s.filter_map(g);
        lemma_listed(rest, g, x);
        if exists|i: int| 0 <= i < s.len() && g(#[trigger] s[i]) == Some(x) {
            let i = choose|i: int| 0 <= i < s.len() && g(#[trigger] s[i]) == Some(x);
            if i < rest.len() {
                assert(rest[i] == s[i]);
                let k = choose|k: int| 0 <= k < head.len() && head[k] == x;
                assert(all[k] == x);
            } else {
                assert(all[head.len() as int] == x);
            }
        }
        if all.contains(x) {
            let k = choose|k: int| 0 <= k < all.len() && all[k] == x;
            if k < head.len() {
                assert(head[k] == x);
                let i = choose|i: int| 0 <= i < rest.len() && g(#[trigger] rest[i]) == Some(x);
                assert(s[i] == rest[i]);
            } else {
                assert(g(s[s.len() - 1]) == Some(x));
            }
        }
    }
}

} // verus!
