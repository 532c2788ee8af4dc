//! Port specifications: comma-separated single ports and inclusive ranges,
//! expanded into the list of ports in the order given.
use core::ops::RangeInclusive;
use vstd::prelude::*;

use crate::text::{
    chars_of, lemma_split_once_shorter, parse_unsigned, parse_unsigned_spec, split_once,
    split_once_spec,
};
use crate::NetworkParseError;

verus! {

/// The port number text `s` spells, as `str::parse::<u16>` reads it.
pub open spec fn port_number_spec(s: Seq<char>) -> Option<nat> {
    parse_unsigned_spec(s, u16::MAX as nat)
}

/// The first and last port of one token: `p` alone, `a-b`, or `-` for every
/// port from 1 to 65535. Everything after the first `-` is the upper bound.
pub open spec fn port_token_spec(t: Seq<char>) -> Option<(nat, nat)> {
    match split_once_spec(t, '-') {
        None => match port_number_spec(t) {
            Some(p) => Some((p, p)),
            None => None,
        },
        Some((a, b)) => if a.len() == 0 && b.len() == 0 {
            Some((1, 65535))
        } else {
            match (port_number_spec(a), port_number_spec(b)) {
                (Some(x), Some(y)) => Some((x, y)),
                _ => None,
            }
        },
    }
}

/// The ports `first..=last`, ascending; empty when `first > last`.
pub open spec fn port_range_seq(first: nat, last: nat) -> Seq<u16> {
    Seq::new(
        if first <= last {
            (last - first + 1) as nat
        } else {
            0
        },
        |i: int| (first + i) as u16,
    )
}

pub open spec fn token_ports(t: Seq<char>) -> Option<Seq<u16>> {
    match port_token_spec(t) {
        Some((a, b)) => Some(port_range_seq(a, b)),
        None => None,
    }
}

/// The ports that a whole specification lists: each comma-separated token
/// expanded in turn, duplicates kept; `None` when any token is malformed.
pub open spec fn port_list_spec(s: Seq<char>) -> Option<Seq<u16>>
    decreases s.len(),
    via port_list_spec_decreases
{
    match split_once_spec(s, ',') {
        None => token_ports(s),
        Some((head, rest)) => match (token_ports(head), port_list_spec(rest)) {
            (Some(x), Some(y)) => Some(x + y),
            _ => None,
        },
    }
}

#[via_fn]
proof fn port_list_spec_decreases(s: Seq<char>) {
    lemma_split_once_shorter(s, ',');
}

fn port_number(s: &[char]) -> (r: Option<u16>)
    ensures
        match r {
            Some(p) => port_number_spec(s@) == Some(p as nat),
            None => port_number_spec(s@).is_none(),
        },
{
    match parse_unsigned(s, 65535) {
        Some(p) => Some(p as u16),
        None => None,
    }
}

fn port_token(t: &[char]) -> (r: Result<(u16, u16), NetworkParseError>)
    ensures
        match r {
            Ok((a, b)) => port_token_spec(t@) == Some((a as nat, b as nat)),
            Err(e) => port_token_spec(t@).is_none() && e == NetworkParseError::InvalidPortNumber,
        },
{
    match split_once(t, '-') {
        None => match port_number(t) {
            Some(p) => Ok((p, p)),
            None => Err(NetworkParseError::InvalidPortNumber),
        },
        Some((a, b)) => {
            if a.len() == 0 && b.len() == 0 {
                Ok((1, 65535))
            } else {
                match (port_number(a), port_number(b)) {
                    (Some(x), Some(y)) => Ok((x, y)),
                    _ => Err(NetworkParseError::InvalidPortNumber),
                }
            }
        },
    }
}

/// Reads one port token (`80`, `20-23`, or `-` for 1 to 65535) into the
/// inclusive range it denotes; a reversed range is empty, not an error.
pub fn expand_port_range(x: &str) -> (r: Result<RangeInclusive<u16>, NetworkParseError>)
    ensures
        match port_token_spec(x@) {
            Some((a, b)) => r is Ok && r->Ok_0@.start as nat == a && r->Ok_0@.end as nat == b
                && !r->Ok_0@.exhausted,
            None => r == Err::<RangeInclusive<u16>, NetworkParseError>(
                NetworkParseError::InvalidPortNumber,
            ),
        },
{
    let text = chars_of(x);
    let (a, b) = port_token(text.as_slice())?;
    Ok(RangeInclusive::new(a, b))
}

fn push_range(out: &mut Vec<u16>, first: u16, last: u16)
    ensures
        final(out)@ == old(out)@ + port_range_seq(first as nat, last as nat),
{
    let mut p: u32 = first as u32;
    while p <= last as u32
        invariant
            first <= p,
            first <= last ==> p <= last as u32 + 1,
            first > last ==> p == first,
            out@ == old(out)@ + Seq::new((p - first) as nat, |i: int| (first + i) as u16),
        decreases last as u32 + 1 - p,
    {
        out.push(p as u16);
        assert(out@ =~= old(out)@ + Seq::new((p + 1 - first) as nat, |i: int| (first + i) as u16));
        p = p + 1;
    }
    assert(Seq::new((p - first) as nat, |i: int| (first + i) as u16) =~= port_range_seq(
        first as nat,
        last as nat,
    ));
}

proof fn lemma_port_list_unfold(s: Seq<char>)
    ensures
        split_once_spec(s, ',') is None ==> port_list_spec(s) == token_ports(s),
        split_once_spec(s, ',') is Some ==> {
            let (head, rest) = split_once_spec(s, ',')->Some_0;
            port_list_spec(s) == match (token_ports(head), port_list_spec(rest)) {
                (Some(x), Some(y)) => Some(x + y),
                _ => None,
            }
        },
{
}

/// Expands a comma-separated port specification (`22,80,110-120`) into its
/// ports, token by token in the order given, duplicates kept. A malformed
/// token fails the whole specification.
pub fn expand_port_list(port_spec: &str) -> (r: Result<Vec<u16>, NetworkParseError>)
    ensures
        match port_list_spec(port_spec@) {
            Some(ps) => r is Ok && r->Ok_0@ == ps,
            None => r == Err::<Vec<u16>, NetworkParseError>(NetworkParseError::InvalidPortNumber),
        },
{
    let text = chars_of(port_spec);
    let mut rest: &[char] = text.as_slice();
    let mut out: Vec<u16> = Vec::new();
    assert(out@ + Seq::<u16>::empty() =~= Seq::<u16>::empty());
    loop
        invariant
            port_list_spec(port_spec@) == prefixed(out@, port_list_spec(rest@)),
        decreases rest@.len(),
    {
        proof {
            lemma_port_list_unfold(rest@);
            lemma_split_once_shorter(rest@, ',');
        }
        match split_once(rest, ',') {
            None => {
                match port_token(rest) {
                    Ok((a, b)) => {
                        push_range(&mut out, a, b);
                        return Ok(out);
                    },
                    Err(e) => {
                        return Err(e);
                    },
                }
            },
            Some((head, tail)) => {
                match port_token(head) {
                    Ok((a, b)) => {
                        let ghost before = out@;
                        push_range(&mut out, a, b);
                        proof {
                            lemma_prefixed_assoc(
                                before,
                                port_range_seq(a as nat, b as nat),
                                port_list_spec(tail@),
                            );
                        }
                        rest = tail;
                    },
                    Err(e) => {
                        return Err(e);
                    },
                }
            },
        }
    }
}

/// `o` with `p` in front, where `o` holds a list.
pub open spec fn prefixed(p: Seq<u16>, o: Option<Seq<u16>>) -> Option<Seq<u16>> {
    match o {
        Some(y) => Some(p + y),
        None => None,
    }
}

proof fn lemma_prefixed_assoc(p: Seq<u16>, x: Seq<u16>, o: Option<Seq<u16>>)
    ensures
        prefixed(p, prefixed(x, o)) == prefixed(p + x, o),
{
    if let Some(y) = o {
        assert(p + (x + y) =~= (p + x) + y);
    }
}

} // verus!
