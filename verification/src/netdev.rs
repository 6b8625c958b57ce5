//! Network devices: Ethernet sizes, feature bits, device descriptions and
//! IPv4 addresses.
use vstd::prelude::*;
use vstd::string::*;
use crate::argparse::{split_on, split_plain};

verus! {

pub const ETH_ADDR_LEN: usize = 6;
pub const ETH_TYPE_LEN: usize = 2;
pub const ETH_8021Q_LEN: usize = ETH_TYPE_LEN + 2;

pub const ETH_HDR_UNTAGGED_LEN: usize = 2 * ETH_ADDR_LEN + ETH_TYPE_LEN;
pub const ETH_HDR_8021Q_LEN: usize = ETH_HDR_UNTAGGED_LEN + ETH_8021Q_LEN;
pub const ETH_HDR_8021AD_LEN: usize = ETH_HDR_UNTAGGED_LEN + 2 * ETH_8021Q_LEN;

pub const ETH_PAYLOAD_MAXLEN: usize = 1500;
/// Payload of a jumbo frame.
pub const ETH_JPAYLOAD_MAXLEN: usize = 9000;

pub const ETH_FRAME_MINLEN: usize = 60;

pub const ETH_FRAME_UNTAGGED_MAXLEN: usize = ETH_HDR_UNTAGGED_LEN + ETH_PAYLOAD_MAXLEN;
pub const ETH_FRAME_8021Q_MAXLEN: usize = ETH_HDR_8021Q_LEN + ETH_PAYLOAD_MAXLEN;
pub const ETH_FRAME_8021AD_MAXLEN: usize = ETH_HDR_8021AD_LEN + ETH_PAYLOAD_MAXLEN;
pub const ETH_FRAME_MAXLEN: usize = ETH_FRAME_8021AD_MAXLEN;

pub const ETH_JFRAME_UNTAGGED_MAXLEN: usize = ETH_HDR_UNTAGGED_LEN + ETH_JPAYLOAD_MAXLEN;
pub const ETH_JFRAME_8021Q_MAXLEN: usize = ETH_HDR_8021Q_LEN + ETH_JPAYLOAD_MAXLEN;
pub const ETH_JFRAME_8021AD_MAXLEN: usize = ETH_HDR_8021AD_LEN + ETH_JPAYLOAD_MAXLEN;
pub const ETH_JFRAME_MAXLEN: usize = ETH_JFRAME_8021AD_MAXLEN;

pub const NETDEV_HWADDR_LEN: usize = ETH_ADDR_LEN;

/// A hardware address.
pub struct Hwaddr {
    pub addr_bytes: [u8; 6],
}

pub const FEATURE_RXQ_INTR_BIT: u32 = 0;
pub const FEATURE_RXQ_INTR_AVAILABLE: u32 = 1;
pub const FEATURE_TXQ_INTR_BIT: u32 = 1;
pub const FEATURE_TXQ_INTR_AVAILABLE: u32 = 2;

/// The device can interrupt on receive queues: bit
/// `FEATURE_RXQ_INTR_BIT` of its features is set.
pub fn rxintr_supported(feature: u32) -> (b: bool)
    ensures
        b == (feature % 2 == 1),
{
    assert((feature & 1 != 0) == (feature % 2 == 1)) by (bit_vector);
    feature & FEATURE_RXQ_INTR_AVAILABLE != 0
}

/// What a device can do.
pub struct Info {
    pub max_rx_queues: u16,
    pub max_tx_queues: u16,
    /// Queues are allocated in pairs.
    pub in_queue_pairs: bool,
    /// Largest MTU.
    pub max_mtu: u16,
    /// Headroom for transmitting, in bytes.
    pub nb_encap_tx: u16,
    /// Headroom for receiving, in bytes.
    pub nb_encap_rx: u16,
    /// Alignment of packet buffers, in bytes.
    pub ioalign: u16,
    /// Bitmap of the features.
    pub features: u32,
}

/// What a queue allows.
pub struct QueueInfo {
    /// Largest number of descriptors.
    pub nb_max: u16,
    /// Smallest number of descriptors.
    pub nb_min: u16,
    /// The number of descriptors is a multiple of this.
    pub nb_align: u16,
    /// The number of descriptors is a power of two.
    pub nb_is_power_of_two: bool,
}

/// How a device is configured.
pub struct Conf {
    pub nb_rx_queues: u16,
    pub nb_tx_queues: u16,
}

/// A transmit queue; each driver defines its content.
pub struct TxQueue {}

/// A receive queue; each driver defines its content.
pub struct RxQueue {}

/// The state of a device.
#[derive(Clone, Copy, PartialEq, Eq, Structural)]
pub enum State {
    Invalid,
    Unconfigured,
    Configured,
    Running,
}

/// The kinds of extra information that a device may hold.
#[derive(Clone, Copy, PartialEq, Eq, Structural)]
pub enum EinfoType {
    Ipv4AddrNint16,
    Ipv4AddrStr,
    Ipv4MaskNint16,
    Ipv4MaskStr,
    Ipv4GwNint16,
    Ipv4GwStr,
    Ipv4Dns0Nint16,
    Ipv4Dns0Str,
    Ipv4Dns1Nint16,
    Ipv4Dns1Str,
}

pub const STATUS_SUCCESS: usize = 0x1;
pub const STATUS_MORE: usize = 0x2;
pub const STATUS_UNDERRUN: usize = 0x4;

/// An IPv4 address: four bytes, the first one first.
#[derive(Clone, Copy)]
pub struct Ipv4Addr {
    feild: [u8; 4],
}

/// `c` is an ASCII digit.
pub open spec fn is_digit(c: char) -> bool {
    '0' <= c <= '9'
}

/// The value of the decimal digits `s`.
pub open spec fn dec_value(s: Seq<char>) -> int
    decreases s.len(),
{
    if s.len() == 0 {
        0
    } else {
        dec_value(s.drop_last()) * 10 + (s.last() as int - '0' as int)
    }
}

/// `s` without a leading `+`.
pub open spec fn sign_free(s: Seq<char>) -> Seq<char> {
    if s.len() > 0 && s[0] == '+' { s.drop_first() } else { s }
}

/// Every character of `b` is a decimal digit.
pub open spec fn all_digits(b: Seq<char>) -> bool {
    forall|i: int| 0 <= i < b.len() ==> is_digit(#[trigger] b[i])
}

/// What `u8::from_str` makes of `s`: an optional `+`, then one or more
/// decimal digits whose value is at most 255.
pub open spec fn parse_u8_spec(s: Seq<char>) -> Option<u8> {
    let body = sign_free(s);
    if body.len() > 0 && all_digits(body) && dec_value(body) <= 255 {
        Some(dec_value(body) as u8)
    } else {
        None
    }
}

/// What an IPv4 address reads as: exactly four fields between dots, each a
/// byte as `parse_u8_spec` reads it.
pub open spec fn parse_ipv4_spec(s: Seq<char>) -> Option<Seq<u8>> {
    let parts = split_on(s, '.');
    if parts.len() == 4 && (forall|i: int| 0 <= i < 4 ==> #[trigger] parse_u8_spec(parts[i]) is Some) {
        Some(Seq::new(4, |i: int| parse_u8_spec(parts[i])->0))
    } else {
        None
    }
}

/// The decimal digits of `n`, without leading zeros.
pub open spec fn dec_string(n: nat) -> Seq<char>
    decreases n,
{
    if n < 10 {
        seq![('0' as u8 + n) as char]
    } else {
        dec_string(n / 10).push(('0' as u8 + n % 10) as char)
    }
}

/// Four bytes written `a.b.c.d`, in decimal.
pub open spec fn ipv4_string(b: Seq<u8>) -> Seq<char> {
    dec_string(b[0] as nat) + seq!['.'] + dec_string(b[1] as nat) + seq!['.'] + dec_string(b[2] as nat) + seq!['.']
        + dec_string(b[3] as nat)
}

/// The digits of a byte read back as that byte, and hold no dot.
proof fn lemma_dec_string_u8(n: nat)
    requires
        n < 256,
    ensures
        parse_u8_spec(dec_string(n)) == Some(n as u8),
        !dec_string(n).contains('.'),
    decreases n,
{
    lemma_dec_string_digits(n);
    let d = dec_string(n);
    assert(d[0] != '+');
    assert(sign_free(d) == d);
}

proof fn lemma_dec_string_digits(n: nat)
    ensures
        dec_string(n).len() >= 1,
        all_digits(dec_string(n)),
        dec_value(dec_string(n)) == n,
        !dec_string(n).contains('.'),
    decreases n,
{
    let d = dec_string(n);
    if n < 10 {
        let c = ('0' as u8 + n) as char;
        assert(d == seq![c]);
        assert(c as int == 48 + n);
        assert(d.drop_last() =~= Seq::<char>::empty());
        assert(d.last() == c);
        assert(dec_value(d) == dec_value(d.drop_last()) * 10 + (c as int - '0' as int));
        assert(is_digit(d[0]));
        if d.contains('.') {
            let i = choose|i: int| 0 <= i < d.len() && d[i] == '.';
            assert(i == 0);
        }
    } else {
        lemma_dec_string_digits(n / 10);
        let c = ('0' as u8 + n % 10) as char;
        assert(c as int == 48 + n % 10);
        let p = dec_string(n / 10);
        assert(d == p.push(c));
        assert(d.drop_last() =~= p);
        assert(d.last() == c);
        assert(dec_value(d) == dec_value(p) * 10 + (c as int - '0' as int));
        assert(n == (n / 10) * 10 + n % 10);
        assert forall|i: int| 0 <= i < d.len() implies is_digit(#[trigger] d[i]) by {
            if i < p.len() {
                assert(d[i] == p[i]);
            }
        }
        if d.contains('.') {
            let i = choose|i: int| 0 <= i < d.len() && d[i] == '.';
            if i < p.len() {
                assert(p[i] == '.');
            }
        }
    }
}

/// Splitting `s + t`, where `t` holds no separator, extends the last piece
/// of `s` by `t`.
proof fn lemma_split_append(s: Seq<char>, t: Seq<char>, sep: char)
    requires
        !t.contains(sep),
    ensures
        split_on(s + t, sep) == split_on(s, sep).update(
            split_on(s, sep).len() - 1,
            split_on(s, sep).last() + t,
        ),
    decreases t.len(),
{
    crate::argparse::lemma_split_on_len(s, sep);
    if t.len() == 0 {
        assert(s + t =~= s);
        assert(split_on(s, sep).last() + t =~= split_on(s, sep).last());
        assert(split_on(s, sep).update(split_on(s, sep).len() - 1, split_on(s, sep).last()) =~= split_on(s, sep));
    } else {
        let t1 = t.drop_last();
        assert(!t1.contains(sep)) by {
            if t1.contains(sep) {
                let i = choose|i: int| 0 <= i < t1.len() && t1[i] == sep;
                assert(t[i] == sep);
            }
        }
        assert(t.last() != sep) by {
            assert(t[t.len() - 1] == t.last());
        }
        lemma_split_append(s, t1, sep);
        assert((s + t).drop_last() =~= s + t1);
        assert((s + t).last() == t.last());
        let r = split_on(s, sep);
        assert(r.last() + t1 + seq![t.last()] =~= r.last() + t);
        assert((r.last() + t1).push(t.last()) =~= r.last() + t);
        assert(split_on(s + t, sep) =~= r.update(r.len() - 1, r.last() + t));
    }
}

/// Splitting `s` followed by the separator adds an empty piece.
proof fn lemma_split_sep(s: Seq<char>, sep: char)
    ensures
        split_on(s + seq![sep], sep) == split_on(s, sep).push(Seq::<char>::empty()),
{
    assert((s + seq![sep]).drop_last() =~= s);
    assert((s + seq![sep]).last() == sep);
}

/// An address written out reads back as the same address.
pub proof fn lemma_ipv4_round_trip(b: Seq<u8>)
    requires
        b.len() == 4,
    ensures
        parse_ipv4_spec(ipv4_string(b)) == Some(b),
{
    let d0 = dec_string(b[0] as nat);
    let d1 = dec_string(b[1] as nat);
    let d2 = dec_string(b[2] as nat);
    let d3 = dec_string(b[3] as nat);
    lemma_dec_string_u8(b[0] as nat);
    lemma_dec_string_u8(b[1] as nat);
    lemma_dec_string_u8(b[2] as nat);
    lemma_dec_string_u8(b[3] as nat);
    let e = Seq::<char>::empty();
    lemma_split_append(e, d0, '.');
    assert(e + d0 =~= d0);
    assert(seq![e].update(0, e + d0) =~= seq![d0]);
    assert(split_on(d0, '.') == seq![d0]);
    let s1 = d0 + seq!['.'];
    lemma_split_sep(d0, '.');
    lemma_split_append(s1, d1, '.');
    assert(e + d1 =~= d1);
    assert(split_on(s1 + d1, '.') =~= seq![d0, d1]);
    let s2 = s1 + d1 + seq!['.'];
    lemma_split_sep(s1 + d1, '.');
    lemma_split_append(s2, d2, '.');
    assert(split_on(s2 + d2, '.') =~= seq![d0, d1, d2]);
    let s3 = s2 + d2 + seq!['.'];
    lemma_split_sep(s2 + d2, '.');
    lemma_split_append(s3, d3, '.');
    assert(split_on(s3 + d3, '.') =~= seq![d0, d1, d2, d3]);
    assert(ipv4_string(b) =~= s3 + d3);
    let parts = split_on(ipv4_string(b), '.');
    assert(parts == seq![d0, d1, d2, d3]);
    assert(parse_u8_spec(parts[0]) == Some(b[0]));
    assert(parse_u8_spec(parts[1]) == Some(b[1]));
    assert(parse_u8_spec(parts[2]) == Some(b[2]));
    assert(parse_u8_spec(parts[3]) == Some(b[3]));
    assert(parse_ipv4_spec(ipv4_string(b))->0 =~= b);
}

proof fn lemma_dec_value_mono(s: Seq<char>, k: int)
    requires
        0 <= k <= s.len(),
        forall|i: int| 0 <= i < s.len() ==> is_digit(#[trigger] s[i]),
    ensures
        dec_value(s.take(k)) <= dec_value(s),
        dec_value(s) >= 0,
    decreases s.len(),
{
    if s.len() > 0 {
        if k == s.len() {
            assert(s.take(k) =~= s);
        } else {
            assert(s.drop_last().take(k) =~= s.take(k));
        }
        assert forall|i: int| 0 <= i < s.drop_last().len() implies is_digit(#[trigger] s.drop_last()[i]) by {
            assert(s.drop_last()[i] == s[i]);
        }
        if k < s.len() {
            lemma_dec_value_mono(s.drop_last(), k);
        } else {
            lemma_dec_value_mono(s.drop_last(), 0);
        }
    }
}

/// Reads a byte as `u8::from_str` does.
fn parse_u8(s: &str) -> (r: Option<u8>)
    ensures
        r == parse_u8_spec(s@),
{
    let n = s.unicode_len();
    let mut start: usize = 0;
    if n > 0 && s.get_char(0) == '+' {
        start = 1;
    }
    let ghost body = sign_free(s@);
    proof {
        assert(body =~= s@.subrange(start as int, n as int));
    }
    if start == n {
        return None;
    }
    let mut v: u32 = 0;
    let mut i: usize = start;
    while i < n
        invariant
            n == s@.len(),
            start <= i <= n,
            start < n,
            body == s@.subrange(start as int, n as int),
            body == sign_free(s@),
            forall|k: int| start <= k < i ==> is_digit(#[trigger] s@[k]),
            v == dec_value(s@.subrange(start as int, i as int)),
            v <= 255,
        decreases n - i,
    {
        let c = s.get_char(i);
        proof {
            assert(s@.subrange(start as int, i + 1).drop_last() =~= s@.subrange(start as int, i as int));
        }
        if !('0' <= c && c <= '9') {
            proof {
                assert(body[i - start] == c);
                assert(!is_digit(c));
                assert(!is_digit(body[i - start]));
                assert(!all_digits(body));
                assert(parse_u8_spec(s@) is None);
            }
            return None;
        }
        v = v * 10 + (c as u32 - '0' as u32);
        if v > 255 {
            proof {
                assert forall|k: int| 0 <= k < i + 1 - start implies is_digit(#[trigger] body.take(i + 1 - start)[k]) by {
                    assert(body.take(i + 1 - start)[k] == s@[start + k]);
                }
                assert(body.take(i + 1 - start) =~= s@.subrange(start as int, i + 1));
                if all_digits(body) {
                    lemma_dec_value_mono(body, i + 1 - start);
                    assert(dec_value(body.take(i + 1 - start)) == v);
                    assert(dec_value(body) > 255);
                }
                assert(parse_u8_spec(s@) is None);
            }
            return None;
        }
        i = i + 1;
    }
    proof {
        assert forall|k: int| 0 <= k < body.len() implies is_digit(#[trigger] body[k]) by {
            assert(body[k] == s@[start + k]);
        }
        assert(all_digits(body));
        assert(body =~= s@.subrange(start as int, i as int));
    }
    Some(v as u8)
}

impl Ipv4Addr {
    /// The four bytes, the first one first.
    pub closed spec fn bytes(&self) -> Seq<u8> {
        self.feild@
    }

    /// The address `a.b.c.d`.
    pub fn new(a: u8, b: u8, c: u8, d: u8) -> (r: Self)
        ensures
            r.bytes() == seq![a, b, c, d],
    {
        let r = Self { feild: [a, b, c, d] };
        proof {
            assert(r.bytes() =~= seq![a, b, c, d]);
        }
        r
    }

    /// Reads an address written `a.b.c.d`; fails on anything else.
    pub fn parse(s: &str) -> (r: Result<Self, ()>)
        ensures
            r is Ok <==> parse_ipv4_spec(s@) is Some,
            r matches Ok(a) ==> a.bytes() == parse_ipv4_spec(s@)->0,
    {
        let parts = split_plain(s, '.');
        if parts.len() != 4 {
            proof {
                assert(parts.deep_view().len() == parts@.len());
            }
            return Err(());
        }
        let mut feild: [u8; 4] = [0, 0, 0, 0];
        let mut i: usize = 0;
        while i < 4
            invariant
                parts@.len() == 4,
                parts.deep_view() == split_on(s@, '.'),
                i <= 4,
                forall|k: int| 0 <= k < i ==> #[trigger] parse_u8_spec(split_on(s@, '.')[k]) == Some(feild[k]),
            decreases 4 - i,
        {
            assert(parts.deep_view()[i as int] == parts@[i as int]@);
            match parse_u8(parts[i].as_str()) {
                Some(a) => {
                    feild[i] = a;
                },
                None => {
                    return Err(());
                },
            }
            i = i + 1;
        }
        let r = Self { feild };
        proof {
            assert(r.bytes() =~= parse_ipv4_spec(s@)->0);
        }
        Ok(r)
    }

    /// Byte `index` of the address.
    pub fn index(&self, index: usize) -> (b: u8)
        requires
            index < 4,
        ensures
            b == self.bytes()[index as int],
    {
        self.feild[index]
    }

    /// Sets byte `index` of the address.
    pub fn set(&mut self, index: usize, value: u8)
        requires
            index < 4,
        ensures
            final(self).bytes() == old(self).bytes().update(index as int, value),
    {
        self.feild[index] = value;
        proof {
            assert(self.bytes() =~= old(self).bytes().update(index as int, value));
        }
    }

    /// The address written `a.b.c.d`, in decimal.
    pub fn to_string(&self) -> (s: String)
        ensures
            s@ == ipv4_string(self.bytes()),
    {
        let mut s = String::new();
        push_decimal(&mut s, self.feild[0]);
        push_dot(&mut s);
        push_decimal(&mut s, self.feild[1]);
        push_dot(&mut s);
        push_decimal(&mut s, self.feild[2]);
        push_dot(&mut s);
        push_decimal(&mut s, self.feild[3]);
        proof {
            assert(s@ =~= ipv4_string(self.bytes()));
        }
        s
    }
}

fn push_dot(s: &mut String)
    ensures
        final(s)@ == old(s)@ + seq!['.'],
{
    proof {
        reveal_strlit(".");
    }
    s.append(".");
    proof {
        assert(final(s)@ =~= old(s)@ + seq!['.']);
    }
}

/// Appends digit `d`.
fn push_digit(s: &mut String, d: u8)
    requires
        d < 10,
    ensures
        final(s)@ == old(s)@.push(('0' as u8 + d) as char),
{
    let digits = "0123456789";
    proof {
        reveal_strlit("0123456789");
    }
    let one = digits.substring_char(d as usize, d as usize + 1);
    proof {
        assert(one@ =~= seq![('0' as u8 + d) as char]);
    }
    s.append(one);
}

/// Appends the decimal digits of `n`.
fn push_decimal(s: &mut String, n: u8)
    ensures
        final(s)@ == old(s)@ + dec_string(n as nat),
{
    if n >= 100 {
        push_digit(s, n / 100);
        push_digit(s, (n / 10) % 10);
        push_digit(s, n % 10);
        proof {
            assert(dec_string((n / 10) as nat) == dec_string((n / 100) as nat).push(('0' as u8 + (n / 10) % 10) as char));
            assert(dec_string(n as nat) == dec_string((n / 10) as nat).push(('0' as u8 + n % 10) as char));
            assert(final(s)@ =~= old(s)@ + dec_string(n as nat));
        }
    } else if n >= 10 {
        push_digit(s, n / 10);
        push_digit(s, n % 10);
        proof {
            assert(dec_string(n as nat) == dec_string((n / 10) as nat).push(('0' as u8 + n % 10) as char));
            assert(final(s)@ =~= old(s)@ + dec_string(n as nat));
        }
    } else {
        push_digit(s, n);
        proof {
            assert(final(s)@ =~= old(s)@ + dec_string(n as nat));
        }
    }
}

/// Extra information about a device.
pub struct Einfo {
    pub ipv4_addr: Ipv4Addr,
    pub ipv4_net_mask: Ipv4Addr,
    pub ipv4_gw_addr: Ipv4Addr,
}

} // verus!
