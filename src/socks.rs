//! The SOCKS5 side: a client's connect request, the address text that goes to
//! the relay, and the replies to the client.
use vstd::prelude::*;

verus! {

pub const SOCKS_VERSION: u8 = 5;
pub const CMD_CONNECT: u8 = 1;
pub const ATYP_IPV4: u8 = 1;
pub const ATYP_DOMAIN: u8 = 3;
pub const ATYP_IPV6: u8 = 4;

/// An IPv4 socket address.
#[derive(PartialEq, Eq, Structural, Clone, Copy, Debug)]
pub struct Addr4 {
    pub a: u8,
    pub b: u8,
    pub c: u8,
    pub d: u8,
    pub port: u16,
}

/// An IPv6 socket address: eight 16-bit groups, most significant first.
#[derive(PartialEq, Eq, Structural, Clone, Copy, Debug)]
pub struct Addr6 {
    pub g0: u16,
    pub g1: u16,
    pub g2: u16,
    pub g3: u16,
    pub g4: u16,
    pub g5: u16,
    pub g6: u16,
    pub g7: u16,
    pub port: u16,
}

impl Addr6 {
    pub open spec fn groups(&self) -> Seq<u16> {
        seq![self.g0, self.g1, self.g2, self.g3, self.g4, self.g5, self.g6, self.g7]
    }
}

/// Where a client asked to connect.
pub enum ConnectDest {
    Addr(Addr4),
    Addr6(Addr6),
    DomainName(Vec<u8>, u16),
    Invalid,
}

pub enum DestView {
    Addr(Addr4),
    Addr6(Addr6),
    DomainName(Seq<u8>, u16),
    Invalid,
}

impl View for ConnectDest {
    type V = DestView;

    open spec fn view(&self) -> DestView {
        match self {
            ConnectDest::Addr(a) => DestView::Addr(*a),
            ConnectDest::Addr6(a) => DestView::Addr6(*a),
            ConnectDest::DomainName(n, p) => DestView::DomainName(n@, *p),
            ConnectDest::Invalid => DestView::Invalid,
        }
    }
}

pub open spec fn port_at(s: Seq<u8>, i: int) -> u16 {
    ((s[i] as u16) * 256 + s[i + 1] as u16) as u16
}

/// The destination of a SOCKS5 connect request: version 5, command connect,
/// a reserved byte, then an IPv4 address, a length-prefixed domain name or an
/// IPv6 address, then the port, big endian. Anything else is invalid.
pub open spec fn dest_of(s: Seq<u8>) -> DestView {
    if s.len() < 5 || s[0] != SOCKS_VERSION || s[1] != CMD_CONNECT || s[2] != 0 {
        DestView::Invalid
    } else if s[3] == ATYP_IPV4 && s.len() == 10 {
        DestView::Addr(Addr4 { a: s[4], b: s[5], c: s[6], d: s[7], port: port_at(s, 8) })
    } else if s[3] == ATYP_IPV6 && s.len() == 22 {
        DestView::Addr6(
            Addr6 {
                g0: port_at(s, 4),
                g1: port_at(s, 6),
                g2: port_at(s, 8),
                g3: port_at(s, 10),
                g4: port_at(s, 12),
                g5: port_at(s, 14),
                g6: port_at(s, 16),
                g7: port_at(s, 18),
                port: port_at(s, 20),
            },
        )
    } else if s[3] == ATYP_DOMAIN && s[4] > 0 && s.len() == 7 + s[4] {
        DestView::DomainName(s.subrange(5, 5 + s[4]), port_at(s, 5 + s[4]))
    } else {
        DestView::Invalid
    }
}

/// Reads the destination out of a client's connect request.
pub fn parse_connect_request(s: &[u8]) -> (r: ConnectDest)
    ensures
        r@ == dest_of(s@),
{
    if s.len() < 5 || s[0] != SOCKS_VERSION || s[1] != CMD_CONNECT || s[2] != 0 {
        return ConnectDest::Invalid;
    }
    if s[3] == ATYP_IPV4 && s.len() == 10 {
        return ConnectDest::Addr(
            Addr4 { a: s[4], b: s[5], c: s[6], d: s[7], port: (s[8] as u16) * 256 + s[9] as u16 },
        );
    }
    if s[3] == ATYP_IPV6 && s.len() == 22 {
        return ConnectDest::Addr6(
            Addr6 {
                g0: (s[4] as u16) * 256 + s[5] as u16,
                g1: (s[6] as u16) * 256 + s[7] as u16,
                g2: (s[8] as u16) * 256 + s[9] as u16,
                g3: (s[10] as u16) * 256 + s[11] as u16,
                g4: (s[12] as u16) * 256 + s[13] as u16,
                g5: (s[14] as u16) * 256 + s[15] as u16,
                g6: (s[16] as u16) * 256 + s[17] as u16,
                g7: (s[18] as u16) * 256 + s[19] as u16,
                port: (s[20] as u16) * 256 + s[21] as u16,
            },
        );
    }
    let n = s[4] as usize;
    if s[3] == ATYP_DOMAIN && n > 0 && s.len() == 7 + n {
        let mut name: Vec<u8> = Vec::new();
        let mut i: usize = 5;
        while i < 5 + n
            invariant
                5 <= i <= 5 + n,
                n <= 255,
                5 + n + 2 == s@.len(),
                name@ == s@.subrange(5, i as int),
            decreases 5 + n - i,
        {
            name.push(s[i]);
            i = i + 1;
            assert(name@ =~= s@.subrange(5, i as int));
        }
        return ConnectDest::DomainName(name, (s[5 + n] as u16) * 256 + s[6 + n] as u16);
    }
    ConnectDest::Invalid
}

/// The greeting a client opens with: version 5 and its list of methods.
pub open spec fn greeting_ok(s: Seq<u8>) -> bool {
    s.len() >= 2 && s[0] == SOCKS_VERSION && s.len() == 2 + s[1]
}

pub fn check_greeting(s: &[u8]) -> (r: bool)
    ensures
        r == greeting_ok(s@),
{
    s.len() >= 2 && s[0] == SOCKS_VERSION && s.len() == 2 + s[1] as usize
}

/// The answer to a greeting: version 5, no authentication.
pub fn greeting_reply() -> (r: Vec<u8>)
    ensures
        r@ == seq![SOCKS_VERSION, 0u8],
{
    let r: Vec<u8> = vec![SOCKS_VERSION, 0];
    assert(r@ =~= seq![SOCKS_VERSION, 0u8]);
    r
}

/// The decimal digits of `n`, most significant first, without leading zeros.
pub open spec fn dec(n: nat) -> Seq<u8>
    decreases n,
{
    if n < 10 {
        seq![(48 + n) as u8]
    } else {
        dec(n / 10).push((48 + n % 10) as u8)
    }
}

/// An address as text: four decimal numbers between dots, a colon, the port.
pub open spec fn addr_text(a: Addr4) -> Seq<u8> {
    dec(a.a as nat) + seq![46u8] + dec(a.b as nat) + seq![46u8] + dec(a.c as nat)
        + seq![46u8] + dec(a.d as nat) + seq![58u8] + dec(a.port as nat)
}

fn push_dec(out: &mut Vec<u8>, n: u32)
    ensures
        final(out)@ == old(out)@ + dec(n as nat),
    decreases n,
{
    if n >= 10 {
        push_dec(out, n / 10);
    }
    out.push((48 + n % 10) as u8);
    assert(final(out)@ =~= old(out)@ + dec(n as nat));
}

/// The address as the text that a connect request carries.
pub fn format_addr(a: &Addr4) -> (r: Vec<u8>)
    ensures
        r@ == addr_text(*a),
        r@.len() <= 21,
{
    proof {
        lemma_dec(a.a as nat);
        lemma_dec(a.b as nat);
        lemma_dec(a.c as nat);
        lemma_dec(a.d as nat);
        lemma_dec(a.port as nat);
    }
    let mut r: Vec<u8> = Vec::new();
    push_dec(&mut r, a.a as u32);
    r.push(46);
    push_dec(&mut r, a.b as u32);
    r.push(46);
    push_dec(&mut r, a.c as u32);
    r.push(46);
    push_dec(&mut r, a.d as u32);
    r.push(58);
    push_dec(&mut r, a.port as u32);
    assert(r@ =~= addr_text(*a));
    r
}

pub open spec fn is_digit(c: u8) -> bool {
    48 <= c <= 57
}

/// The number that a run of decimal digits stands for.
pub open spec fn dec_value(t: Seq<u8>) -> nat
    decreases t.len(),
{
    if t.len() == 0 {
        0
    } else {
        dec_value(t.drop_last()) * 10 + (t.last() - 48) as nat
    }
}

proof fn lemma_dec(n: nat)
    ensures
        dec(n).len() >= 1,
        forall|k: int| 0 <= k < dec(n).len() ==> is_digit(#[trigger] dec(n)[k]),
        dec_value(dec(n)) == n,
        n < 10 ==> dec(n).len() == 1,
        n < 100 ==> dec(n).len() <= 2,
        n < 1000 ==> dec(n).len() <= 3,
        n < 10000 ==> dec(n).len() <= 4,
        n < 100000 ==> dec(n).len() <= 5,
    decreases n,
{
    if n < 10 {
        assert(dec(n).drop_last() =~= Seq::<u8>::empty());
        assert(dec(n).last() as int == 48 + n);
        assert(dec_value(Seq::<u8>::empty()) == 0);
        assert(dec_value(dec(n)) == dec_value(dec(n).drop_last()) * 10 + (dec(n).last() - 48) as nat);
    } else {
        lemma_dec(n / 10);
        let d = dec(n);
        assert(d.drop_last() =~= dec(n / 10));
        assert(d.last() as int == 48 + n % 10);
        assert((n / 10) * 10 + n % 10 == n) by (nonlinear_arith);
        assert(dec_value(d) == dec_value(d.drop_last()) * 10 + (d.last() - 48) as nat);
        assert forall|k: int| 0 <= k < d.len() implies is_digit(#[trigger] d[k]) by {
            if k < d.len() - 1 {
                assert(d[k] == dec(n / 10)[k]);
            }
        }
    }
}

/// An IPv4 text starts with a digit.
pub proof fn lemma_starts_with_digit(a: Addr4)
    ensures
        addr_text(a).len() > 0 && is_digit(addr_text(a)[0]),
{
    lemma_dec(a.a as nat);
    assert(addr_text(a)[0] == dec(a.a as nat)[0]);
}

/// Where the fields of an address text stand.
proof fn lemma_layout(x: Addr4)
    ensures
        ({
            let t = addr_text(x);
            let end_a = dec(x.a as nat).len() as int;
            let end_b = end_a + 1 + dec(x.b as nat).len();
            let end_c = end_b + 1 + dec(x.c as nat).len();
            let end_d = end_c + 1 + dec(x.d as nat).len();
            &&& t.subrange(0, end_a) == dec(x.a as nat)
            &&& t[end_a] == 46u8
            &&& t.subrange(end_a + 1, end_b) == dec(x.b as nat)
            &&& t[end_b] == 46u8
            &&& t.subrange(end_b + 1, end_c) == dec(x.c as nat)
            &&& t[end_c] == 46u8
            &&& t.subrange(end_c + 1, end_d) == dec(x.d as nat)
            &&& t[end_d] == 58u8
            &&& t.subrange(end_d + 1, t.len() as int) == dec(x.port as nat)
        }),
{
    let t = addr_text(x);
    let da = dec(x.a as nat);
    let db = dec(x.b as nat);
    let dc = dec(x.c as nat);
    let dd = dec(x.d as nat);
    let dp = dec(x.port as nat);
    let end_a = da.len() as int;
    let end_b = end_a + 1 + db.len();
    let end_c = end_b + 1 + dc.len();
    let end_d = end_c + 1 + dd.len();
    assert(t.subrange(0, end_a) =~= da);
    assert(t.subrange(end_a + 1, end_b) =~= db);
    assert(t.subrange(end_b + 1, end_c) =~= dc);
    assert(t.subrange(end_c + 1, end_d) =~= dd);
    assert(t.subrange(end_d + 1, t.len() as int) =~= dp);
}

/// A field written as `dec(n)` and followed by a non-digit (or the end) is
/// read back whole, as `n`.
proof fn lemma_field(s: Seq<u8>, start: int, n: nat, v: u32, e: usize)
    requires
        0 <= start,
        n < 100000,
        start + dec(n).len() <= s.len(),
        s.subrange(start, start + dec(n).len()) == dec(n),
        start + dec(n).len() == s.len() || !is_digit(s[start + dec(n).len()]),
        start <= e <= s.len(),
        v == dec_value(s.subrange(start, e as int)),
        forall|k: int| start <= k < e ==> is_digit(#[trigger] s[k]),
        e == s.len() || e - start == 5 || !is_digit(s[e as int]),
    ensures
        e == start + dec(n).len(),
        v == n,
{
    lemma_dec(n);
    let l = dec(n).len() as int;
    if e < start + l {
        assert(s[e as int] == dec(n)[e - start]);
    }
    if e > start + l {
        assert(is_digit(s[start + l]));
    }
}

/// `v` is the value of the run of digits (at most five) that starts at `i`
/// and ends before `e`.
pub open spec fn number_read(s: Seq<u8>, i: int, v: u32, e: usize) -> bool {
    &&& 0 <= i <= e <= s.len()
    &&& e <= i + 5
    &&& v == dec_value(s.subrange(i, e as int))
    &&& forall|k: int| i <= k < e ==> is_digit(#[trigger] s[k])
    &&& e == s.len() || e - i == 5 || !is_digit(s[e as int])
}

/// Reads a run of digits from `i` (at most five), with its value.
fn read_number(s: &[u8], i: usize) -> (r: (u32, usize))
    requires
        i <= s@.len(),
    ensures
        number_read(s@, i as int, r.0, r.1),
{
    let mut v: u32 = 0;
    let mut j: usize = i;
    while j < s.len() && j - i < 5 && 48 <= s[j] && s[j] <= 57
        invariant
            i <= j <= s@.len(),
            j - i <= 5,
            v == dec_value(s@.subrange(i as int, j as int)),
            j - i <= 4 ==> v < 10000,
            j - i <= 3 ==> v < 1000,
            j - i <= 2 ==> v < 100,
            j - i <= 1 ==> v < 10,
            j - i == 0 ==> v == 0,
            forall|k: int| i <= k < j ==> is_digit(#[trigger] s@[k]),
        decreases s@.len() - j,
    {
        assert(s@.subrange(i as int, j + 1).drop_last() =~= s@.subrange(i as int, j as int));
        v = v * 10 + (s[j] - 48) as u32;
        j = j + 1;
    }
    (v, j)
}

/// Reads an address from its text: `Some(a)` exactly where `s` is
/// `addr_text(a)`, and then for that `a` alone.
pub fn parse_addr_text(s: &[u8]) -> (r: Option<Addr4>)
    ensures
        match r {
            Some(a) => s@ == addr_text(a) && forall|b: Addr4| s@ == #[trigger] addr_text(b) ==> b == a,
            None => forall|a: Addr4| s@ != #[trigger] addr_text(a),
        },
{
    let (a, i1) = read_number(s, 0);
    if i1 >= s.len() || s[i1] != 46 || a > 255 {
        proof {
            lemma_no_text(s@, a, i1, 0, 0, 0, 0, 0, 0, 0, 0, 0);
        }
        return None;
    }
    let (b, i2) = read_number(s, i1 + 1);
    if i2 >= s.len() || s[i2] != 46 || b > 255 {
        proof {
            lemma_no_text(s@, a, i1, b, i2, 0, 0, 0, 0, 0, 0, 1);
        }
        return None;
    }
    let (c, i3) = read_number(s, i2 + 1);
    if i3 >= s.len() || s[i3] != 46 || c > 255 {
        proof {
            lemma_no_text(s@, a, i1, b, i2, c, i3, 0, 0, 0, 0, 2);
        }
        return None;
    }
    let (d, i4) = read_number(s, i3 + 1);
    if i4 >= s.len() || s[i4] != 58 || d > 255 {
        proof {
            lemma_no_text(s@, a, i1, b, i2, c, i3, d, i4, 0, 0, 3);
        }
        return None;
    }
    let (p, e) = read_number(s, i4 + 1);
    if p > 65535 {
        proof {
            lemma_no_text(s@, a, i1, b, i2, c, i3, d, i4, p, e, 4);
        }
        return None;
    }
    let addr = Addr4 { a: a as u8, b: b as u8, c: c as u8, d: d as u8, port: p as u16 };
    proof {
        lemma_no_text(s@, a, i1, b, i2, c, i3, d, i4, p, e, 5);
    }
    let text = format_addr(&addr);
    if text.len() != s.len() {
        return None;
    }
    let mut k: usize = 0;
    while k < s.len()
        invariant
            text@.len() == s@.len(),
            text@ == addr_text(addr),
            forall|x: Addr4| s@ == #[trigger] addr_text(x) ==> x == addr,
            k <= s@.len(),
            forall|m: int| 0 <= m < k ==> text@[m] == s@[m],
        decreases s@.len() - k,
    {
        if text[k] != s[k] {
            return None;
        }
        k = k + 1;
    }
    assert(text@ =~= s@);
    Some(addr)
}

/// Ties the numbers read from `s` to any address whose text `s` is: up to
/// the step `upto` that was reached, each field read is that address's field.
proof fn lemma_no_text(
    s: Seq<u8>,
    a: u32, i1: usize, b: u32, i2: usize, c: u32, i3: usize, d: u32, i4: usize, p: u32, e: usize,
    upto: int,
)
    requires
        0 <= upto <= 5,
        number_read(s, 0, a, i1),
        upto >= 1 ==> i1 < s.len() && s[i1 as int] == 46 && a <= 255 && number_read(s, i1 + 1, b, i2),
        upto >= 2 ==> i2 < s.len() && s[i2 as int] == 46 && b <= 255 && number_read(s, i2 + 1, c, i3),
        upto >= 3 ==> i3 < s.len() && s[i3 as int] == 46 && c <= 255 && number_read(s, i3 + 1, d, i4),
        upto >= 4 ==> i4 < s.len() && s[i4 as int] == 58 && d <= 255 && number_read(s, i4 + 1, p, e),
        upto == 0 ==> !(i1 < s.len() && s[i1 as int] == 46 && a <= 255),
        upto == 1 ==> !(i2 < s.len() && s[i2 as int] == 46 && b <= 255),
        upto == 2 ==> !(i3 < s.len() && s[i3 as int] == 46 && c <= 255),
        upto == 3 ==> !(i4 < s.len() && s[i4 as int] == 58 && d <= 255),
        upto == 4 ==> p > 65535,
    ensures
        upto < 5 ==> forall|x: Addr4| s != #[trigger] addr_text(x),
        upto == 5 ==> forall|x: Addr4| s == #[trigger] addr_text(x) ==> x == (Addr4 {
            a: a as u8,
            b: b as u8,
            c: c as u8,
            d: d as u8,
            port: p as u16,
        }),
{
    assert forall|x: Addr4| s == #[trigger] addr_text(x) implies upto == 5 && x == (Addr4 {
        a: a as u8,
        b: b as u8,
        c: c as u8,
        d: d as u8,
        port: p as u16,
    }) by {
        lemma_layout(x);
        lemma_dec(x.a as nat);
        lemma_dec(x.b as nat);
        lemma_dec(x.c as nat);
        lemma_dec(x.d as nat);
        lemma_dec(x.port as nat);
        let end_a = dec(x.a as nat).len() as int;
        let end_b = end_a + 1 + dec(x.b as nat).len();
        let end_c = end_b + 1 + dec(x.c as nat).len();
        let end_d = end_c + 1 + dec(x.d as nat).len();
        lemma_field(s, 0, x.a as nat, a, i1);
        if upto >= 1 {
            lemma_field(s, end_a + 1, x.b as nat, b, i2);
        }
        if upto >= 2 {
            lemma_field(s, end_b + 1, x.c as nat, c, i3);
        }
        if upto >= 3 {
            lemma_field(s, end_c + 1, x.d as nat, d, i4);
        }
        if upto >= 4 {
            lemma_field(s, end_d + 1, x.port as nat, p, e);
        }
    }
}

/// The reply for a connected client: success, with the address the relay
/// connected to.
pub open spec fn success_reply(a: Addr4) -> Seq<u8> {
    seq![SOCKS_VERSION, 0u8, 0u8, ATYP_IPV4, a.a, a.b, a.c, a.d, (a.port / 256) as u8, (a.port % 256) as u8]
}

/// The reply for a client whose destination could not be reached.
pub open spec fn failure_reply() -> Seq<u8> {
    seq![SOCKS_VERSION, 1u8, 0u8, ATYP_IPV4, 0u8, 0u8, 0u8, 0u8, 0u8, 0u8]
}

pub fn reply_connect_success(a: &Addr4) -> (r: Vec<u8>)
    ensures
        r@ == success_reply(*a),
{
    let r: Vec<u8> = vec![SOCKS_VERSION, 0, 0, ATYP_IPV4, a.a, a.b, a.c, a.d, (a.port / 256) as u8, (a.port % 256) as u8];
    assert(r@ =~= success_reply(*a));
    r
}

pub fn reply_failure() -> (r: Vec<u8>)
    ensures
        r@ == failure_reply(),
{
    let r: Vec<u8> = vec![SOCKS_VERSION, 1, 0, ATYP_IPV4, 0, 0, 0, 0, 0, 0];
    assert(r@ =~= failure_reply());
    r
}

/// The lowercase hexadecimal digits of `n`, without leading zeros.
pub open spec fn hex(n: nat) -> Seq<u8>
    decreases n,
{
    if n < 16 {
        seq![hex_digit(n)]
    } else {
        hex(n / 16).push(hex_digit(n % 16))
    }
}

pub open spec fn hex_digit(d: nat) -> u8 {
    if d < 10 {
        (48 + d) as u8
    } else {
        (87 + d) as u8
    }
}

/// Groups in hexadecimal, separated by colons.
pub open spec fn join_hex(gs: Seq<u16>) -> Seq<u8>
    decreases gs.len(),
{
    if gs.len() == 0 {
        Seq::empty()
    } else if gs.len() == 1 {
        hex(gs[0] as nat)
    } else {
        join_hex(gs.drop_last()) + seq![58u8] + hex(gs.last() as nat)
    }
}

/// `zl` groups from `zs` on are zero and may be written as `::`; `zl == 0`
/// writes all eight groups.
pub open spec fn zero_run(g: Seq<u16>, zs: int, zl: int) -> bool {
    &&& 0 <= zs && 0 <= zl && zs + zl <= 8
    &&& zl == 0 ==> zs == 0
    &&& forall|i: int| zs <= i < zs + zl ==> g[i] == 0
}

/// An IPv6 socket address as text, with the zero groups `zs..zs + zl`
/// written as `::`: `[1:0:0:0:0:0:0:2]:80`, `[1::2]:80`, `[::1]:8080`.
pub open spec fn addr6_text(a: Addr6, zs: int, zl: int) -> Seq<u8> {
    let g = a.groups();
    let body = if zl == 0 {
        join_hex(g)
    } else {
        join_hex(g.subrange(0, zs)) + seq![58u8, 58u8] + join_hex(g.subrange(zs + zl, 8))
    };
    seq![91u8] + body + seq![93u8, 58u8] + dec(a.port as nat)
}

/// `s` is a text of the IPv6 address `a`.
pub open spec fn is_addr6_text(s: Seq<u8>, a: Addr6) -> bool {
    exists|zs: int, zl: int| zero_run(a.groups(), zs, zl) && s == #[trigger] addr6_text(a, zs, zl)
}

proof fn lemma_hex_len(n: nat)
    ensures
        hex(n).len() >= 1,
        n < 16 ==> hex(n).len() == 1,
        n < 256 ==> hex(n).len() <= 2,
        n < 4096 ==> hex(n).len() <= 3,
        n < 65536 ==> hex(n).len() <= 4,
    decreases n,
{
    if n >= 16 {
        lemma_hex_len(n / 16);
    }
}

fn push_hex(out: &mut Vec<u8>, n: u16)
    ensures
        final(out)@ == old(out)@ + hex(n as nat),
    decreases n,
{
    if n >= 16 {
        push_hex(out, n / 16);
    }
    let d = n % 16;
    let c: u8 = if d < 10 { 48 + d as u8 } else { 87 + d as u8 };
    out.push(c);
    assert(final(out)@ =~= old(out)@ + hex(n as nat));
}

fn group(a: &Addr6, i: usize) -> (r: u16)
    requires
        i < 8,
    ensures
        r == a.groups()[i as int],
{
    match i {
        0 => a.g0,
        1 => a.g1,
        2 => a.g2,
        3 => a.g3,
        4 => a.g4,
        5 => a.g5,
        6 => a.g6,
        _ => a.g7,
    }
}

fn push_groups(out: &mut Vec<u8>, a: &Addr6, from: usize, to: usize)
    requires
        from <= to <= 8,
    ensures
        final(out)@ == old(out)@ + join_hex(a.groups().subrange(from as int, to as int)),
        final(out)@.len() <= old(out)@.len() + 5 * (to - from),
{
    let ghost g = a.groups();
    let mut i: usize = from;
    assert(g.subrange(from as int, from as int) =~= Seq::<u16>::empty());
    while i < to
        invariant
            from <= i <= to <= 8,
            g == a.groups(),
            out@ == old(out)@ + join_hex(g.subrange(from as int, i as int)),
            out@.len() <= old(out)@.len() + 5 * (i - from),
        decreases to - i,
    {
        let ghost before = out@;
        proof {
            lemma_hex_len(g[i as int] as nat);
        }
        if i > from {
            out.push(58);
        }
        push_hex(out, group(a, i));
        let ghost sub = g.subrange(from as int, i + 1);
        assert(sub.drop_last() =~= g.subrange(from as int, i as int));
        if i == from {
            assert(sub.len() == 1);
        }
        assert(out@ =~= old(out)@ + join_hex(sub));
        i = i + 1;
    }
}

/// The text of an IPv6 address with the zero groups `zs..zs + zl` as `::`.
pub fn format_addr6(a: &Addr6, zs: usize, zl: usize) -> (r: Vec<u8>)
    requires
        zero_run(a.groups(), zs as int, zl as int),
    ensures
        r@ == addr6_text(*a, zs as int, zl as int),
        r@.len() <= 64,
{
    proof {
        lemma_dec(a.port as nat);
    }
    let mut r: Vec<u8> = Vec::new();
    r.push(91);
    if zl == 0 {
        push_groups(&mut r, a, 0, 8);
        assert(a.groups().subrange(0, 8) =~= a.groups());
    } else {
        push_groups(&mut r, a, 0, zs);
        r.push(58);
        r.push(58);
        push_groups(&mut r, a, zs + zl, 8);
    }
    r.push(93);
    r.push(58);
    push_dec(&mut r, a.port as u32);
    assert(r@ =~= addr6_text(*a, zs as int, zl as int));
    r
}

pub open spec fn is_hex_digit(c: u8) -> bool {
    is_digit(c) || (97 <= c <= 102)
}

pub open spec fn hex_digit_value(c: u8) -> nat {
    if c <= 57 {
        (c - 48) as nat
    } else {
        (c - 87) as nat
    }
}

/// The number that a run of lowercase hexadecimal digits stands for.
pub open spec fn hex_value(t: Seq<u8>) -> nat
    decreases t.len(),
{
    if t.len() == 0 {
        0
    } else {
        hex_value(t.drop_last()) * 16 + hex_digit_value(t.last())
    }
}

proof fn lemma_hex(n: nat)
    ensures
        hex(n).len() >= 1,
        forall|k: int| 0 <= k < hex(n).len() ==> is_hex_digit(#[trigger] hex(n)[k]),
        hex_value(hex(n)) == n,
        n < 65536 ==> hex(n).len() <= 4,
    decreases n,
{
    lemma_hex_len(n);
    if n < 16 {
        assert(hex(n).drop_last() =~= Seq::<u8>::empty());
        assert(hex_value(Seq::<u8>::empty()) == 0);
        assert(hex_value(hex(n)) == hex_value(hex(n).drop_last()) * 16 + hex_digit_value(hex(n).last()));
    } else {
        lemma_hex(n / 16);
        let d = hex(n);
        assert(d.drop_last() =~= hex(n / 16));
        assert(d.last() == hex_digit(n % 16));
        assert((n / 16) * 16 + n % 16 == n) by (nonlinear_arith);
        assert(hex_value(d) == hex_value(d.drop_last()) * 16 + hex_digit_value(d.last()));
        assert forall|k: int| 0 <= k < d.len() implies is_hex_digit(#[trigger] d[k]) by {
            if k < d.len() - 1 {
                assert(d[k] == hex(n / 16)[k]);
            }
        }
    }
}

/// `v` is the value of the run of hexadecimal digits (at most four) that
/// starts at `i` and ends before `e`.
pub open spec fn hex_read(s: Seq<u8>, i: int, v: u16, e: usize) -> bool {
    &&& 0 <= i <= e <= s.len()
    &&& e <= i + 4
    &&& v == hex_value(s.subrange(i, e as int))
    &&& forall|k: int| i <= k < e ==> is_hex_digit(#[trigger] s[k])
    &&& e == s.len() || e - i == 4 || !is_hex_digit(s[e as int])
}

/// A group written as `hex(n)` and followed by a non-digit (or the end) is
/// read back whole, as `n`.
proof fn lemma_hex_field(s: Seq<u8>, start: int, n: nat, v: u16, e: usize)
    requires
        0 <= start,
        n < 65536,
        start + hex(n).len() <= s.len(),
        s.subrange(start, start + hex(n).len()) == hex(n),
        start + hex(n).len() == s.len() || !is_hex_digit(s[start + hex(n).len()]),
        hex_read(s, start, v, e),
    ensures
        e == start + hex(n).len(),
        v == n,
{
    lemma_hex(n);
    let l = hex(n).len() as int;
    if e < start + l {
        assert(s[e as int] == hex(n)[e - start]);
    }
    if e > start + l {
        assert(is_hex_digit(s[start + l]));
    }
}

proof fn lemma_join_split(g: Seq<u16>, k: int)
    requires
        0 < k < g.len(),
    ensures
        join_hex(g) == join_hex(g.take(k)) + seq![58u8] + join_hex(g.skip(k)),
    decreases g.len(),
{
    if k == g.len() - 1 {
        assert(g.take(k) =~= g.drop_last());
        assert(g.skip(k) =~= seq![g.last()]);
    } else {
        lemma_join_split(g.drop_last(), k);
        assert(g.drop_last().take(k) =~= g.take(k));
        assert(g.skip(k).drop_last() =~= g.drop_last().skip(k));
        assert(g.skip(k).last() == g.last());
    }
}

/// Groups as text: never empty, never two colons in a row, and neither
/// starting nor ending with a colon.
proof fn lemma_join_shape(g: Seq<u16>)
    ensures
        g.len() == 0 ==> join_hex(g).len() == 0,
        g.len() > 0 ==> join_hex(g).len() > 0 && join_hex(g)[0] != 58u8 && join_hex(g).last()
            != 58u8,
        forall|j: int| 0 <= j < join_hex(g).len() - 1 ==> !(#[trigger] join_hex(g)[j] == 58u8
            && join_hex(g)[j + 1] == 58u8),
    decreases g.len(),
{
    if g.len() == 1 {
        lemma_hex(g[0] as nat);
    } else if g.len() > 1 {
        lemma_join_shape(g.drop_last());
        lemma_hex(g.last() as nat);
        let t = join_hex(g);
        let a = join_hex(g.drop_last());
        let h = hex(g.last() as nat);
        assert(t == a + seq![58u8] + h);
        assert forall|j: int| 0 <= j < t.len() - 1 implies !(#[trigger] t[j] == 58u8 && t[j + 1]
            == 58u8) by {
            if j < a.len() - 1 {
                assert(t[j] == a[j] && t[j + 1] == a[j + 1]);
            } else if j == a.len() - 1 {
                assert(t[j] == a.last());
            } else if j == a.len() {
                assert(t[j + 1] == h[0]);
            } else {
                assert(t[j] == h[j - a.len() - 1]);
            }
        }
        assert(t[0] == a[0]);
        assert(t.last() == h.last());
    }
}

/// Reads a run of lowercase hexadecimal digits (at most four) from `i`.
fn read_hex(s: &[u8], i: usize) -> (r: (u16, usize))
    requires
        i <= s@.len(),
    ensures
        hex_read(s@, i as int, r.0, r.1),
{
    let mut v: u16 = 0;
    let mut j: usize = i;
    while j < s.len() && j - i < 4 && ((48 <= s[j] && s[j] <= 57) || (97 <= s[j] && s[j] <= 102))
        invariant
            i <= j <= s@.len(),
            j - i <= 4,
            v == hex_value(s@.subrange(i as int, j as int)),
            j - i <= 3 ==> v < 4096,
            j - i <= 2 ==> v < 256,
            j - i <= 1 ==> v < 16,
            j - i == 0 ==> v == 0,
            forall|k: int| i <= k < j ==> is_hex_digit(#[trigger] s@[k]),
        decreases s@.len() - j,
    {
        assert(s@.subrange(i as int, j + 1).drop_last() =~= s@.subrange(i as int, j as int));
        let c = s[j];
        let d: u16 = if c <= 57 { (c - 48) as u16 } else { (c - 87) as u16 };
        v = v * 16 + d;
        j = j + 1;
    }
    (v, j)
}

/// Reads the groups that `s[from..to]` writes as `join_hex(g)`: `Some(g)`
/// for every such `g` of at most eight groups.
fn parse_groups(s: &[u8], from: usize, to: usize) -> (r: Option<Vec<u16>>)
    requires
        from <= to <= s@.len(),
        to == s@.len() || !is_hex_digit(s@[to as int]),
    ensures
        forall|g: Seq<u16>| g.len() <= 8 && s@.subrange(from as int, to as int) == #[trigger] join_hex(g)
            ==> r is Some && r->Some_0@ == g,
        r is Some ==> r->Some_0@.len() <= 8,
{
    let mut out: Vec<u16> = Vec::new();
    if from == to {
        proof {
            assert forall|g: Seq<u16>| g.len() <= 8 && s@.subrange(from as int, to as int)
                == #[trigger] join_hex(g) implies out@ == g by {
                lemma_join_shape(g);
                assert(g =~= out@);
            }
        }
        return Some(out);
    }
    let mut i: usize = from;
    proof {
        assert forall|g: Seq<u16>| g.len() <= 8 && s@.subrange(from as int, to as int)
            == #[trigger] join_hex(g) implies out@.len() < g.len() && out@ == g.take(out@.len() as int)
            && s@.subrange(i as int, to as int) == join_hex(g.skip(out@.len() as int)) by {
            lemma_join_shape(g);
            assert(g.take(0) =~= out@);
            assert(g.skip(0) =~= g);
        }
    }
    loop
        invariant
            from <= i <= to <= s@.len(),
            to == s@.len() || !is_hex_digit(s@[to as int]),
            out@.len() <= 8,
            forall|g: Seq<u16>| g.len() <= 8 && s@.subrange(from as int, to as int)
                == #[trigger] join_hex(g) ==> out@.len() < g.len() && out@ == g.take(out@.len() as int)
                && s@.subrange(i as int, to as int) == join_hex(g.skip(out@.len() as int)),
        decreases to - i,
    {
        let ghost k = out@.len() as int;
        let ghost o = out@;
        let (v, e) = read_hex(s, i);
        proof {
            assert forall|g: Seq<u16>| g.len() <= 8 && s@.subrange(from as int, to as int)
                == #[trigger] join_hex(g) implies e == i + hex(g[k] as nat).len() && v == g[k]
                && e <= to && (e == to <==> g.len() == k + 1) && (e < to ==> s@[e as int] == 58u8
                && e + 1 < to && s@.subrange(e + 1, to as int) == join_hex(g.skip(k + 1))) by {
                let h = g.skip(k);
                let x = hex(g[k] as nat);
                lemma_hex(g[k] as nat);
                assert(h[0] == g[k]);
                if h.len() == 1 {
                    assert(join_hex(h) == x);
                    assert(s@.subrange(i as int, i + x.len()) =~= x);
                    lemma_hex_field(s@, i as int, g[k] as nat, v, e);
                } else {
                    lemma_join_split(h, 1);
                    assert(join_hex(h.take(1)) == x);
                    assert(h.skip(1) =~= g.skip(k + 1));
                    lemma_join_shape(g.skip(k + 1));
                    let t = s@.subrange(i as int, to as int);
                    assert(t == x + seq![58u8] + join_hex(g.skip(k + 1)));
                    assert(s@.subrange(i as int, i + x.len()) =~= x);
                    assert(s@[i + x.len()] == t[x.len() as int]);
                    lemma_hex_field(s@, i as int, g[k] as nat, v, e);
                    assert(s@.subrange(e + 1, to as int) =~= t.subrange(x.len() + 1int, t.len() as int));
                    assert(t.subrange(x.len() + 1int, t.len() as int) =~= join_hex(g.skip(k + 1)));
                }
            }
        }
        if e == i || out.len() >= 8 || e > to {
            proof {
                assert forall|g: Seq<u16>| !(g.len() <= 8 && s@.subrange(from as int, to as int)
                    == #[trigger] join_hex(g)) by {
                    if g.len() <= 8 && s@.subrange(from as int, to as int) == join_hex(g) {
                        lemma_hex(g[k] as nat);
                    }
                }
            }
            return None;
        }
        out.push(v);
        proof {
            assert forall|g: Seq<u16>| g.len() <= 8 && s@.subrange(from as int, to as int)
                == #[trigger] join_hex(g) implies out@ == g.take(k + 1) by {
                assert(out@ =~= g.take(k + 1));
            }
        }
        if e == to {
            proof {
                assert forall|g: Seq<u16>| g.len() <= 8 && s@.subrange(from as int, to as int)
                    == #[trigger] join_hex(g) implies out@ == g by {
                    assert(g.take(k + 1) =~= g);
                }
            }
            return Some(out);
        }
        if s[e] != 58 || e + 1 >= to {
            proof {
                assert forall|g: Seq<u16>| !(g.len() <= 8 && s@.subrange(from as int, to as int)
                    == #[trigger] join_hex(g)) by {
                }
            }
            return None;
        }
        i = e + 1;
    }
}

/// `s` is the text of `a` with the zero groups `zs..zs + zl` written as `::`.
pub open spec fn canon6(s: Seq<u8>, a: Addr6, zs: int, zl: int) -> bool {
    zero_run(a.groups(), zs, zl) && s == addr6_text(a, zs, zl)
}

pub open spec fn has_addr6(s: Seq<u8>) -> bool {
    exists|w: (Addr6, int, int)| canon6(s, w.0, w.1, w.2)
}

proof fn lemma_no_addr6(s: Seq<u8>)
    requires
        !has_addr6(s),
    ensures
        forall|a: Addr6| !is_addr6_text(s, a),
{
    assert forall|a: Addr6| !is_addr6_text(s, a) by {
        if is_addr6_text(s, a) {
            let (zs, zl) = choose|zs: int, zl: int| zero_run(a.groups(), zs, zl) && s
                == #[trigger] addr6_text(a, zs, zl);
            let w = (a, zs, zl);
            assert(canon6(s, w.0, w.1, w.2));
        }
    }
}

pub open spec fn body6(a: Addr6, zs: int, zl: int) -> Seq<u8> {
    if zl == 0 {
        join_hex(a.groups())
    } else {
        join_hex(a.groups().subrange(0, zs)) + seq![58u8, 58u8] + join_hex(a.groups().subrange(zs + zl, 8))
    }
}

pub open spec fn no_double(s: Seq<u8>, from: int, to: int) -> bool {
    forall|m: int| from <= m && m + 1 < to ==> !(#[trigger] s[m] == 58u8 && s[m + 1] == 58u8)
}

/// Where the parts of an IPv6 text stand.
proof fn lemma_shape6(s: Seq<u8>, a: Addr6, zs: int, zl: int)
    requires
        canon6(s, a, zs, zl),
    ensures
        ({
            let b = body6(a, zs, zl).len() as int;
            let g = a.groups();
            &&& s.len() == b + 3 + dec(a.port as nat).len()
            &&& s[0] == 91u8
            &&& s[1 + b] == 93u8
            &&& s[2 + b] == 58u8
            &&& forall|j: int| 1 + b < j < s.len() ==> #[trigger] s[j] != 93u8
            &&& s.subrange(3 + b, s.len() as int) == dec(a.port as nat)
            &&& zl == 0 ==> s.subrange(1, 1 + b) == join_hex(g) && no_double(s, 1, 1 + b)
            &&& zl > 0 ==> {
                let l = join_hex(g.subrange(0, zs)).len() as int;
                &&& s.subrange(1, 1 + l) == join_hex(g.subrange(0, zs))
                &&& s[1 + l] == 58u8 && s[2 + l] == 58u8
                &&& 2 + l < 1 + b
                &&& s.subrange(3 + l, 1 + b) == join_hex(g.subrange(zs + zl, 8))
                &&& no_double(s, 1, 1 + l)
            }
        }),
{
    let body = body6(a, zs, zl);
    let b = body.len() as int;
    let g = a.groups();
    let d = dec(a.port as nat);
    lemma_dec(a.port as nat);
    assert(s == seq![91u8] + body + seq![93u8, 58u8] + d);
    assert(s.subrange(1, 1 + b) =~= body);
    assert(s.subrange(3 + b, s.len() as int) =~= d);
    assert forall|j: int| 1 + b < j < s.len() implies #[trigger] s[j] != 93u8 by {
        if j > 2 + b {
            assert(s[j] == d[j - 3 - b]);
        }
    }
    if zl == 0 {
        lemma_join_shape(g);
        assert forall|m: int| 1 <= m && m + 1 < 1 + b implies !(#[trigger] s[m] == 58u8 && s[m + 1]
            == 58u8) by {
            assert(s[m] == body[m - 1] && s[m + 1] == body[m]);
        }
    } else {
        let jl = join_hex(g.subrange(0, zs));
        let jr = join_hex(g.subrange(zs + zl, 8));
        let l = jl.len() as int;
        lemma_join_shape(g.subrange(0, zs));
        assert(s.subrange(1, 1 + l) =~= jl);
        assert(s.subrange(3 + l, 1 + b) =~= jr);
        assert forall|m: int| 1 <= m && m + 1 < 1 + l implies !(#[trigger] s[m] == 58u8 && s[m + 1]
            == 58u8) by {
            assert(s[m] == jl[m - 1] && s[m + 1] == jl[m]);
        }
        assert(s[1 + l] == body[l]);
        assert(s[2 + l] == body[l + 1]);
    }
}

/// An IPv6 text starts with `[`.
pub proof fn lemma_addr6_text_starts(s: Seq<u8>, a: Addr6)
    requires
        is_addr6_text(s, a),
    ensures
        s.len() > 0 && s[0] == 91u8,
{
    let (zs, zl) = choose|zs: int, zl: int| zero_run(a.groups(), zs, zl) && s
        == #[trigger] addr6_text(a, zs, zl);
    lemma_shape6(s, a, zs, zl);
}

/// The last `]` in `s`.
fn find_close(s: &[u8]) -> (r: Option<usize>)
    ensures
        match r {
            Some(c) => c < s@.len() && s@[c as int] == 93u8 && forall|j: int| c < j < s@.len()
                ==> #[trigger] s@[j] != 93u8,
            None => forall|j: int| 0 <= j < s@.len() ==> #[trigger] s@[j] != 93u8,
        },
{
    let mut k: usize = s.len();
    while k > 0
        invariant
            k <= s@.len(),
            forall|j: int| k <= j < s@.len() ==> #[trigger] s@[j] != 93u8,
        decreases k,
    {
        if s[k - 1] == 93 {
            return Some(k - 1);
        }
        k = k - 1;
    }
    None
}

/// The first `::` within `s[from..to]`.
fn find_double(s: &[u8], from: usize, to: usize) -> (r: Option<usize>)
    requires
        from <= to <= s@.len(),
    ensures
        match r {
            Some(j) => from <= j && j + 1 < to && s@[j as int] == 58u8 && s@[j + 1] == 58u8
                && no_double(s@, from as int, j + 1),
            None => no_double(s@, from as int, to as int),
        },
{
    let mut j: usize = from;
    while to - j > 1
        invariant
            from <= j <= to <= s@.len(),
            no_double(s@, from as int, j + 1),
        decreases to - j,
    {
        if s[j] == 58 && s[j + 1] == 58 {
            return Some(j);
        }
        j = j + 1;
    }
    None
}

/// Reads an IPv6 address from its text, with or without a `::`: `Some(a)`
/// exactly where `s` is a text of some address, and then of `a`.
pub fn parse_addr6_text(s: &[u8]) -> (r: Option<Addr6>)
    ensures
        match r {
            Some(a) => is_addr6_text(s@, a),
            None => forall|a: Addr6| !is_addr6_text(s@, a),
        },
{
    let ghost has = has_addr6(s@);
    let ghost w = choose|w: (Addr6, int, int)| canon6(s@, w.0, w.1, w.2);
    let ghost g6 = w.0.groups();
    let ghost b = body6(w.0, w.1, w.2).len() as int;
    proof {
        if has {
            lemma_shape6(s@, w.0, w.1, w.2);
        } else {
            lemma_no_addr6(s@);
        }
    }
    if s.len() < 2 || s[0] != 91 {
        return None;
    }
    let c = match find_close(s) {
        Some(c) => c,
        None => return None,
    };
    assert(has ==> c == 1 + b);
    if c == 0 || c + 1 >= s.len() || s[c + 1] != 58 {
        return None;
    }
    let (p, e) = read_number(s, c + 2);
    proof {
        if has {
            lemma_field(s@, c + 2, w.0.port as nat, p, e);
        }
    }
    if p > 65535 {
        return None;
    }
    let mut g: Vec<u16> = Vec::new();
    let zs: usize;
    let zl: usize;
    match find_double(s, 1, c) {
        None => {
            assert(has ==> w.2 == 0);
            let gs = match parse_groups(s, 1, c) {
                Some(gs) => gs,
                None => return None,
            };
            if gs.len() != 8 {
                return None;
            }
            g = gs;
            zs = 0;
            zl = 0;
        },
        Some(d) => {
            proof {
                if has && w.2 == 0 {
                    assert(s@[d as int] == 58u8 && s@[d + 1] == 58u8);
                }
            }
            assert(has ==> w.2 > 0 && d == 1 + join_hex(g6.subrange(0, w.1)).len());
            let gl = match parse_groups(s, 1, d) {
                Some(gl) => gl,
                None => return None,
            };
            let gr = match parse_groups(s, d + 2, c) {
                Some(gr) => gr,
                None => return None,
            };
            if gl.len() + gr.len() > 7 {
                return None;
            }
            let n = gl.len() + gr.len();
            zs = gl.len();
            zl = 8 - n;
            let mut k: usize = 0;
            while k < 8
                invariant
                    k <= 8,
                    g@.len() == k,
                    n == gl@.len() + gr@.len(),
                    n <= 7,
                    zs == gl@.len(),
                    zl == 8 - n,
                    forall|m: int| 0 <= m < k ==> #[trigger] g@[m] == if m < zs {
                        gl@[m]
                    } else if m < zs + zl {
                        0u16
                    } else {
                        gr@[m - zs - zl]
                    },
                decreases 8 - k,
            {
                if k < zs {
                    g.push(gl[k]);
                } else if k < zs + zl {
                    g.push(0);
                } else {
                    g.push(gr[k - zs - zl]);
                }
                k = k + 1;
            }
            proof {
                if has {
                    let gw = g6;
                    assert(gl@ == gw.subrange(0, w.1));
                    assert(gr@ == gw.subrange(w.1 + w.2, 8));
                    assert(g@ =~= gw);
                }
            }
        },
    }
    let a = Addr6 {
        g0: g[0],
        g1: g[1],
        g2: g[2],
        g3: g[3],
        g4: g[4],
        g5: g[5],
        g6: g[6],
        g7: g[7],
        port: p as u16,
    };
    assert(a.groups() =~= g@);
    assert(has ==> a == w.0 && zs == w.1 && zl == w.2);
    if !(zl == 0 || (zl >= 1 && zs + zl <= 8)) {
        return None;
    }
    assert(zero_run(a.groups(), zs as int, zl as int));
    let text = format_addr6(&a, zs, zl);
    if text.len() != s.len() {
        return None;
    }
    let mut j: usize = 0;
    while j < s.len()
        invariant
            text@.len() == s@.len(),
            text@ == addr6_text(a, zs as int, zl as int),
            has ==> s@ == text@,
            has || forall|x: Addr6| !is_addr6_text(s@, x),
            j <= s@.len(),
            forall|m: int| 0 <= m < j ==> text@[m] == s@[m],
        decreases s@.len() - j,
    {
        if text[j] != s[j] {
            return None;
        }
        j = j + 1;
    }
    assert(text@ =~= s@);
    assert(zero_run(a.groups(), zs as int, zl as int) && s@ == addr6_text(a, zs as int, zl as int));
    Some(a)
}

/// The reply for a client connected to an IPv6 address.
pub open spec fn success_reply6(a: Addr6) -> Seq<u8> {
    seq![SOCKS_VERSION, 0u8, 0u8, ATYP_IPV6] + group_bytes(a.groups()) + seq![(a.port / 256) as u8, (a.port % 256) as u8]
}

pub open spec fn group_bytes(g: Seq<u16>) -> Seq<u8>
    decreases g.len(),
{
    if g.len() == 0 {
        Seq::empty()
    } else {
        group_bytes(g.drop_last()) + seq![(g.last() / 256) as u8, (g.last() % 256) as u8]
    }
}

pub fn reply_connect_success6(a: &Addr6) -> (r: Vec<u8>)
    ensures
        r@ == success_reply6(*a),
{
    let mut r: Vec<u8> = vec![SOCKS_VERSION, 0, 0, ATYP_IPV6];
    let ghost g = a.groups();
    let mut i: usize = 0;
    assert(g.subrange(0, 0) =~= Seq::<u16>::empty());
    while i < 8
        invariant
            i <= 8,
            g == a.groups(),
            r@ == seq![SOCKS_VERSION, 0u8, 0u8, ATYP_IPV6] + group_bytes(g.subrange(0, i as int)),
        decreases 8 - i,
    {
        let x = group(a, i);
        r.push((x / 256) as u8);
        r.push((x % 256) as u8);
        assert(g.subrange(0, i + 1).drop_last() =~= g.subrange(0, i as int));
        i = i + 1;
        assert(r@ =~= seq![SOCKS_VERSION, 0u8, 0u8, ATYP_IPV6] + group_bytes(g.subrange(0, i as int)));
    }
    assert(g.subrange(0, 8) =~= g);
    r.push((a.port / 256) as u8);
    r.push((a.port % 256) as u8);
    assert(r@ =~= success_reply6(*a));
    r
}

} // verus!
