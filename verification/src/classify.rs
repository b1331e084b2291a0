use crate::addr::{ipv4_of, is_ipv6_text, is_ipv6_chars, parse_ipv4_chars};
use vstd::prelude::*;
use vstd::string::*;

verus! {

/// What an address string turned out to be.
#[derive(PartialEq, Eq, Structural, Clone, Copy, Debug)]
pub enum AddrClass {
    /// A valid IPv4 address, with its big-endian numeric value.
    V4 { key: u32 },
    /// A valid IPv6 address; classified but never probed.
    V6,
    /// Not an address of either family.
    Bad,
}

/// The class of an address text: IPv4 with its numeric value, IPv6, or
/// neither.
pub open spec fn class_of(s: Seq<char>) -> AddrClass {
    if ipv4_of(s) is Some {
        AddrClass::V4 { key: ipv4_of(s)->0 }
    } else if is_ipv6_text(s) {
        AddrClass::V6
    } else {
        AddrClass::Bad
    }
}

/// Collects the characters of a string slice.
pub fn str_chars(s: &str) -> (r: Vec<char>)
    ensures
        r@ == s@,
{
    let n = s.unicode_len();
    let mut out: Vec<char> = Vec::new();
    let mut i: usize = 0;
    while i < n
        invariant
            i <= n == s@.len(),
            out@ == s@.take(i as int),
        decreases n - i,
    {
        out.push(s.get_char(i));
        assert(out@ =~= s@.take(i + 1));
        i = i + 1;
    }
    proof {
        assert(s@.take(n as int) =~= s@);
    }
    out
}

/// Classifies an address string as IPv4, IPv6 or invalid.
pub fn classify(s: &str) -> (c: AddrClass)
    ensures
        c == class_of(s@),
{
    let chars = str_chars(s);
    match parse_ipv4_chars(&chars) {
        Some(key) => AddrClass::V4 { key },
        None => if is_ipv6_chars(&chars) {
            AddrClass::V6
        } else {
            AddrClass::Bad
        },
    }
}

/// How one probed or classified target ended up.
#[derive(PartialEq, Eq, Structural, Clone, Copy, Debug)]
pub enum Status {
    /// The host answered a probe.
    Up,
    /// The host answered no probe, or the probe mechanism itself failed.
    Down,
    /// The target text is not an address.
    Invalid,
    /// The target is an IPv6 address, which is classified but not probed.
    UnsupportedFamily,
}

/// One target's outcome: its text, its status, and the key the final report
/// is ordered by — the address's numeric value, or zero where there is none.
pub struct Outcome {
    pub target: String,
    pub status: Status,
    pub key: u32,
}

/// The sort key a target's outcome carries: the numeric value for an IPv4
/// address, zero for anything else.
pub open spec fn key_of(s: Seq<char>) -> u32 {
    match class_of(s) {
        AddrClass::V4 { key } => key,
        _ => 0,
    }
}

/// The status a target's outcome carries, given whether a probe of it — if
/// one is called for — would report it reachable.
pub open spec fn status_of(s: Seq<char>, up: bool) -> Status {
    match class_of(s) {
        AddrClass::V4 { key } => if up {
            Status::Up
        } else {
            Status::Down
        },
        AddrClass::V6 => Status::UnsupportedFamily,
        AddrClass::Bad => Status::Invalid,
    }
}

/// What to do with one enumerated target: probe it, or settle it at once.
pub enum Decision {
    /// A valid IPv4 address: probe it, then build the outcome with `probed`.
    Probe { target: String, key: u32 },
    /// Invalid or IPv6: the outcome is settled without any probe.
    Settled { outcome: Outcome },
}

/// Classifies one target and decides its fate: a valid IPv4 target is to be
/// probed; anything else gets its outcome at once, with sort key zero, and
/// no probe is ever made for it.
pub fn triage(target: String) -> (d: Decision)
    ensures
        match d {
            Decision::Probe { target: t, key } => {
                &&& t == target
                &&& class_of(target@) == (AddrClass::V4 { key })
            },
            Decision::Settled { outcome } => {
                &&& outcome.target == target
                &&& outcome.key == 0
                &&& !(class_of(target@) is V4)
                &&& outcome.status == (if class_of(target@) is V6 {
                    Status::UnsupportedFamily
                } else {
                    Status::Invalid
                })
            },
        },
{
    match classify(target.as_str()) {
        AddrClass::V4 { key } => Decision::Probe { target, key },
        AddrClass::V6 => Decision::Settled {
            outcome: Outcome { target, status: Status::UnsupportedFamily, key: 0 },
        },
        AddrClass::Bad => Decision::Settled {
            outcome: Outcome { target, status: Status::Invalid, key: 0 },
        },
    }
}

/// Builds the outcome of a probed IPv4 target from what the reachability
/// mechanism reported: up on a reply, down on anything else.
pub fn probed(target: String, key: u32, up: bool) -> (o: Outcome)
    ensures
        o.target == target,
        o.key == key,
        o.status == (if up {
            Status::Up
        } else {
            Status::Down
        }),
{
    Outcome { target, status: if up { Status::Up } else { Status::Down }, key }
}

} // verus!
