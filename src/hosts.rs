//! Host specifications: a dotted-quad IPv4 address with an optional CIDR
//! prefix length, expanded into the block of addresses it denotes.
use vstd::arithmetic::div_mod::lemma_fundamental_div_mod;
use vstd::arithmetic::power2::{lemma2_to64, lemma_pow2_adds, lemma_pow2_pos, pow2};
use vstd::bits::{lemma_u64_pow2_no_overflow, lemma_u64_shl_is_mul};
use vstd::prelude::*;

use crate::text::{
    all_digits, chars_of, decimal_value, parse_unsigned, parse_unsigned_spec, split_once,
    split_once_spec,
};
use crate::NetworkParseError;

verus! {

/// An IPv4 address, held as its 32-bit number (first octet most significant).
#[derive(Debug, Clone, Copy, PartialEq, Eq, Structural, Hash)]
pub struct Ipv4Address(pub u32);

pub open spec fn quad_value(a: nat, b: nat, c: nat, d: nat) -> nat {
    a * 0x100_0000 + b * 0x1_0000 + c * 0x100 + d
}

impl Ipv4Address {
    /// The address `a.b.c.d`.
    pub fn new(a: u8, b: u8, c: u8, d: u8) -> (r: Ipv4Address)
        ensures
            r.0 as nat == quad_value(a as nat, b as nat, c as nat, d as nat),
    {
        Ipv4Address((a as u32) * 0x100_0000 + (b as u32) * 0x1_0000 + (c as u32) * 0x100 + d as u32)
    }

    /// The four octets, first octet first.
    pub fn octets(&self) -> (r: (u8, u8, u8, u8))
        ensures
            self.0 as nat == quad_value(r.0 as nat, r.1 as nat, r.2 as nat, r.3 as nat),
    {
        let v = self.0;
        let r = (
            (v / 0x100_0000) as u8,
            (v / 0x1_0000 % 0x100) as u8,
            (v / 0x100 % 0x100) as u8,
            (v % 0x100) as u8,
        );
        assert(v as nat == quad_value(r.0 as nat, r.1 as nat, r.2 as nat, r.3 as nat))
            by (nonlinear_arith)
            requires
                r.0 == v / 0x100_0000,
                r.1 == v / 0x1_0000 % 0x100,
                r.2 == v / 0x100 % 0x100,
                r.3 == v % 0x100,
        ;
        r
    }
}

/// One octet of a dotted quad as std's `Ipv4Addr` parser reads it: one to three
/// digits, no leading zero unless the octet is `0` itself, at most 255.
pub open spec fn octet_spec(s: Seq<char>) -> Option<nat> {
    if 1 <= s.len() <= 3 && all_digits(s) && !(s.len() > 1 && s[0] == '0') && decimal_value(s)
        <= 255 {
        Some(decimal_value(s))
    } else {
        None
    }
}

/// The address that the dotted quad `s` spells: four octets separated by `.`.
pub open spec fn ipv4_spec(s: Seq<char>) -> Option<nat> {
    match split_once_spec(s, '.') {
        None => None,
        Some((a, r1)) => match split_once_spec(r1, '.') {
            None => None,
            Some((b, r2)) => match split_once_spec(r2, '.') {
                None => None,
                Some((c, d)) => match (octet_spec(a), octet_spec(b), octet_spec(c), octet_spec(d)) {
                    (Some(a), Some(b), Some(c), Some(d)) => Some(quad_value(a, b, c, d)),
                    _ => None,
                },
            },
        },
    }
}

/// What a host specification `s` denotes: its address and prefix length, or
/// the first thing wrong with it.
pub open spec fn host_spec_parse(s: Seq<char>) -> Result<(nat, nat), NetworkParseError> {
    if s.len() == 0 {
        Err(NetworkParseError::MissingAddress)
    } else {
        let (ip, mask) = match split_once_spec(s, '/') {
            None => (s, None),
            Some((a, b)) => (a, Some(b)),
        };
        match ipv4_spec(ip) {
            None => Err(NetworkParseError::BadIpAddress),
            Some(addr) => match mask {
                None => Ok((addr, 32)),
                Some(m) => match parse_unsigned_spec(m, u32::MAX as nat) {
                    Some(p) if p <= 32 => Ok((addr, p)),
                    _ => Err(NetworkParseError::BadNetmask),
                },
            },
        }
    }
}

/// Number of addresses in a block with the given prefix length.
pub open spec fn block_size(prefix: nat) -> nat {
    pow2((32 - prefix) as nat)
}

/// First address of the block of prefix length `prefix` that holds `base`:
/// `base` with its low `32 - prefix` bits cleared.
pub open spec fn network_start(base: nat, prefix: nat) -> nat {
    (base - base % block_size(prefix)) as nat
}

/// Every address of the block of prefix length `prefix` that holds `base`,
/// ascending, network and broadcast address included.
pub open spec fn host_block(base: nat, prefix: nat) -> Seq<u32> {
    Seq::new(block_size(prefix), |i: int| (network_start(base, prefix) + i) as u32)
}

fn parse_octet(s: &[char]) -> (r: Option<u32>)
    ensures
        match r {
            Some(v) => octet_spec(s@) == Some(v as nat),
            None => octet_spec(s@).is_none(),
        },
{
    let n = s.len();
    if n == 0 || n > 3 || s[0] == '+' || (n > 1 && s[0] == '0') {
        return None;
    }
    proof {
        reveal(parse_unsigned_spec);
    }
    match parse_unsigned(s, 255) {
        Some(v) => Some(v as u32),
        None => None,
    }
}

/// Reads a dotted-quad IPv4 address, as std's `Ipv4Addr` parser does.
pub fn parse_ipv4(s: &[char]) -> (r: Option<Ipv4Address>)
    ensures
        match r {
            Some(a) => ipv4_spec(s@) == Some(a.0 as nat),
            None => ipv4_spec(s@).is_none(),
        },
{
    let (a, r1) = match split_once(s, '.') {
        Some(p) => p,
        None => return None,
    };
    let (b, r2) = match split_once(r1, '.') {
        Some(p) => p,
        None => return None,
    };
    let (c, d) = match split_once(r2, '.') {
        Some(p) => p,
        None => return None,
    };
    match (parse_octet(a), parse_octet(b), parse_octet(c), parse_octet(d)) {
        (Some(a), Some(b), Some(c), Some(d)) => {
            Some(Ipv4Address::new(a as u8, b as u8, c as u8, d as u8))
        },
        _ => None,
    }
}

/// A forward-only walk over a block of consecutive IPv4 addresses. A fresh walk
/// over the same block is had by expanding the specification again, or by
/// cloning before walking.
#[derive(Clone, Copy)]
pub struct HostIpRange {
    next: u64,
    last: u32,
}

impl View for HostIpRange {
    type V = Seq<u32>;

    /// The addresses not yet handed out, in the order they will come.
    closed spec fn view(&self) -> Seq<u32> {
        let n = if self.next <= self.last as u64 {
            (self.last as u64 - self.next + 1) as nat
        } else {
            0
        };
        Seq::new(n, |i: int| (self.next + i) as u32)
    }
}

impl HostIpRange {
    /// Hands out the next address of the walk.
    pub fn next(&mut self) -> (r: Option<Ipv4Address>)
        ensures
            old(self)@.len() == 0 ==> r.is_none() && final(self)@ == old(self)@,
            old(self)@.len() > 0 ==> r == Some(Ipv4Address(old(self)@[0])) && final(self)@
                == old(self)@.skip(1),
    {
        if self.next <= self.last as u64 {
            let a = self.next as u32;
            self.next = self.next + 1;
            assert(self@ =~= old(self)@.skip(1));
            Some(Ipv4Address(a))
        } else {
            None
        }
    }

    /// A walk never holds more than every IPv4 address.
    pub proof fn lemma_len_bound(&self)
        ensures
            self@.len() <= 0x1_0000_0000,
    {
    }

    /// How many addresses the walk has still to hand out.
    pub fn count(&self) -> (r: u64)
        ensures
            r == self@.len(),
    {
        if self.next <= self.last as u64 {
            self.last as u64 - self.next + 1
        } else {
            0
        }
    }
}

proof fn lemma_block_bounds(base: nat, prefix: nat)
    requires
        base < 0x1_0000_0000,
        prefix <= 32,
    ensures
        0 < block_size(prefix) <= 0x1_0000_0000,
        base % block_size(prefix) <= base,
        network_start(base, prefix) <= base < network_start(base, prefix) + block_size(prefix),
        network_start(base, prefix) + block_size(prefix) <= 0x1_0000_0000,
{
    let size = block_size(prefix);
    let p = (32 - prefix) as nat;
    lemma_pow2_pos(p);
    lemma_pow2_pos(prefix);
    lemma_pow2_adds(p, prefix);
    lemma2_to64();
    assert(pow2(32) == 0x1_0000_0000);
    assert(p + prefix == 32);
    let total = pow2(prefix);
    assert(size * total == 0x1_0000_0000);
    lemma_fundamental_div_mod(base as int, size as int);
    let q = base as int / size as int;
    let r = base as int % size as int;
    assert(0 <= r < size);
    assert(q >= 0) by {
        vstd::arithmetic::div_mod::lemma_div_pos_is_pos(base as int, size as int);
    }
    assert(size * q >= 0) by (nonlinear_arith)
        requires
            q >= 0,
            size > 0,
    ;
    assert(network_start(base, prefix) == size * q);
    assert(size * q + size <= 0x1_0000_0000) by (nonlinear_arith)
        requires
            base == size * q + r,
            0 <= r < size,
            base < size * total,
            size > 0,
            size * total == 0x1_0000_0000,
    {
        if q >= total {
            assert(size * q >= size * total);
        }
    }
    assert(size <= 0x1_0000_0000) by (nonlinear_arith)
        requires
            size * total == 0x1_0000_0000,
            total > 0,
    ;
}

/// The block of prefix length `mask` that holds `addr`.
pub fn expand_hosts_with_netmask(addr: Ipv4Address, mask: u32) -> (r: HostIpRange)
    requires
        mask <= 32,
    ensures
        r@ == host_block(addr.0 as nat, mask as nat),
{
    let shift = 32 - mask;
    proof {
        lemma_u64_pow2_no_overflow(shift as nat);
        lemma_u64_shl_is_mul(1, shift as u64);
        lemma_block_bounds(addr.0 as nat, mask as nat);
    }
    let size: u64 = 1u64 << (shift as u64);
    assert(size == block_size(mask as nat));
    let base = addr.0 as u64;
    let start = base - base % size;
    let r = HostIpRange { next: start, last: (start + (size - 1)) as u32 };
    assert(r@ =~= host_block(addr.0 as nat, mask as nat));
    r
}

/// Reads a host specification into its address and prefix length; without a
/// `/`, the prefix length is 32.
pub fn address_and_netmask_from_str(host_spec: &str) -> (r: Result<
    (Ipv4Address, u32),
    NetworkParseError,
>)
    ensures
        match r {
            Ok((a, m)) => host_spec_parse(host_spec@) == Ok::<(nat, nat), NetworkParseError>(
                (a.0 as nat, m as nat),
            ),
            Err(e) => host_spec_parse(host_spec@) == Err::<(nat, nat), NetworkParseError>(e),
        },
{
    if host_spec.is_empty() {
        return Err(NetworkParseError::MissingAddress);
    }
    let text = chars_of(host_spec);
    let s = text.as_slice();
    let (ip, mask) = match split_once(s, '/') {
        None => (s, None),
        Some((a, b)) => (a, Some(b)),
    };
    let addr = match parse_ipv4(ip) {
        Some(a) => a,
        None => return Err(NetworkParseError::BadIpAddress),
    };
    match mask {
        None => Ok((addr, 32)),
        Some(m) => match parse_unsigned(m, 0xffff_ffff) {
            Some(p) => {
                if p <= 32 {
                    Ok((addr, p as u32))
                } else {
                    Err(NetworkParseError::BadNetmask)
                }
            },
            None => Err(NetworkParseError::BadNetmask),
        },
    }
}

/// Expands a host specification (`192.168.1.1` or `192.168.1.1/24`) into the
/// block of addresses it denotes.
pub fn expand_hosts(host_spec: &str) -> (r: Result<HostIpRange, NetworkParseError>)
    ensures
        match host_spec_parse(host_spec@) {
            Ok((a, m)) => r is Ok && r->Ok_0@ == host_block(a, m),
            Err(e) => r == Err::<HostIpRange, NetworkParseError>(e),
        },
{
    let (addr, mask) = address_and_netmask_from_str(host_spec)?;
    Ok(expand_hosts_with_netmask(addr, mask))
}

/// For every prefix length from 0 to 32 and every base address, the block holds
/// exactly 2^(32 - prefix) addresses, each one more than the one before, starting
/// at a multiple of the block size and holding the base; for prefix length 32 it
/// is the base alone.
pub proof fn lemma_host_block_shape(base: u32, prefix: nat)
    requires
        prefix <= 32,
    ensures
        host_block(base as nat, prefix).len() == pow2((32 - prefix) as nat),
        host_block(base as nat, prefix)[0] as nat % pow2((32 - prefix) as nat) == 0,
        forall|i: int|
            0 < i < host_block(base as nat, prefix).len() ==> #[trigger] host_block(
                base as nat,
                prefix,
            )[i] as int == host_block(base as nat, prefix)[i - 1] + 1,
        host_block(base as nat, prefix).contains(base),
        prefix == 32 ==> host_block(base as nat, prefix) == seq![base],
{
    let b = base as nat;
    let s = host_block(b, prefix);
    let start = network_start(b, prefix);
    lemma_block_bounds(b, prefix);
    assert forall|i: int| 0 <= i < s.len() implies #[trigger] s[i] as int == start + i by {}
    lemma_fundamental_div_mod(b as int, block_size(prefix) as int);
    let k = b - start;
    assert(s[k] == base);
    assert(start % block_size(prefix) == 0) by {
        vstd::arithmetic::div_mod::lemma_mod_multiples_basic(
            b as int / block_size(prefix) as int,
            block_size(prefix) as int,
        );
        vstd::arithmetic::mul::lemma_mul_is_commutative(
            b as int / block_size(prefix) as int,
            block_size(prefix) as int,
        );
    }
    if prefix == 32 {
        assert(pow2(0) == 1) by {
            lemma2_to64();
        }
        assert(s =~= seq![base]);
    }
}

} // verus!
