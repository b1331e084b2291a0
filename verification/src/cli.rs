use crate::addr::{ipv4_of, parse_ipv4_chars};
use crate::classify::str_chars;
use vstd::prelude::*;
use vstd::string::*;

verus! {

pub const DEFAULT_TIMEOUT_MS: u64 = 2000;

pub const DEFAULT_COUNT: u32 = 4;

pub const DEFAULT_CONCURRENCY: usize = 128;

/// A run's configuration: how each host is probed, how wide a wave may be,
/// and which targets to sweep — an explicit list, or an inclusive IPv4
/// range given by its two endpoints as numeric values, in the order they
/// were written.
#[derive(Debug)]
pub struct Args {
    pub range: Option<(u32, u32)>,
    pub timeout_ms: u64,
    pub count: u32,
    pub concurrency: usize,
    pub ips: Vec<String>,
}

/// The help text, with the program's name written into each usage line.
pub open spec fn usage_text(p: Seq<char>) -> Seq<char> {
    "Usage:\n  "@ + p
        + " <IP1> <IP2> ...                       # ping positional addresses\n  "@ + p
        + " -r <start_ipv4> <end_ipv4>            # ping inclusive IPv4 range\n\nOptions:\n  -r, --range            Upper- and lower-limit IPv4 addresses (inclusive)\n  -t, --timeout          Per-probe timeout in milliseconds (default: 2000)\n  -n, --count            Probes per host; succeed on first reply (default: 4)\n  -c, --concurrency      Max simultaneous hosts in flight (default: 128)\n  -h, --help             Show this help\n\nExamples:\n  "@
        + p + " 192.168.1.1 192.168.1.2 1.1.1.1\n  "@ + p
        + " -r 172.16.0.1 172.16.1.254 -t 750 -n 3 -c 256\n"@
}

/// Renders the help text for a given program name.
pub fn usage(program: &str) -> (r: String)
    ensures
        r@ == usage_text(program@),
{
    let mut out = String::from_str("Usage:\n  ");
    out.append(program);
    out.append(" <IP1> <IP2> ...                       # ping positional addresses\n  ");
    out.append(program);
    out.append(
        " -r <start_ipv4> <end_ipv4>            # ping inclusive IPv4 range\n\nOptions:\n  -r, --range            Upper- and lower-limit IPv4 addresses (inclusive)\n  -t, --timeout          Per-probe timeout in milliseconds (default: 2000)\n  -n, --count            Probes per host; succeed on first reply (default: 4)\n  -c, --concurrency      Max simultaneous hosts in flight (default: 128)\n  -h, --help             Show this help\n\nExamples:\n  ",
    );
    out.append(program);
    out.append(" 192.168.1.1 192.168.1.2 1.1.1.1\n  ");
    out.append(program);
    out.append(" -r 172.16.0.1 172.16.1.254 -t 750 -n 3 -c 256\n");
    out
}

/// What `-t`, `-n` and `-c` come to once defaults are applied: the probe
/// count and the concurrency are raised to at least one.
pub open spec fn effective_timeout(t: Option<u64>) -> u64 {
    if t is Some {
        t->0
    } else {
        DEFAULT_TIMEOUT_MS
    }
}

pub open spec fn effective_count(n: Option<u32>) -> u32 {
    let raw = if n is Some {
        n->0
    } else {
        DEFAULT_COUNT
    };
    if raw >= 1 {
        raw
    } else {
        1
    }
}

pub open spec fn effective_concurrency(c: Option<usize>) -> usize {
    let raw = if c is Some {
        c->0
    } else {
        DEFAULT_CONCURRENCY
    };
    if raw >= 1 {
        raw
    } else {
        1
    }
}

/// Builds the run's configuration from what the command line gave: option
/// values where present, defaults where absent, the probe count and the
/// concurrency never below one. Range mode demands exactly two positional
/// arguments, both valid IPv4 addresses, kept in the order given; list mode
/// demands at least one positional argument and keeps them all verbatim.
/// Each rejection names its cause; an empty list earns the help text.
pub fn build_args(
    program: &str,
    timeout: Option<u64>,
    count: Option<u32>,
    concurrency: Option<usize>,
    range_mode: bool,
    free: Vec<String>,
) -> (r: Result<Args, String>)
    ensures
        r is Ok <==> (if range_mode {
            free@.len() == 2 && ipv4_of(free@[0]@) is Some && ipv4_of(free@[1]@) is Some
        } else {
            free@.len() > 0
        }),
        r matches Ok(a) ==> {
            &&& a.timeout_ms == effective_timeout(timeout)
            &&& a.count == effective_count(count)
            &&& a.concurrency == effective_concurrency(concurrency)
            &&& if range_mode {
                a.range == Some((ipv4_of(free@[0]@)->0, ipv4_of(free@[1]@)->0)) && a.ips@.len()
                    == 0
            } else {
                a.range is None && a.ips == free
            }
        },
        r matches Err(m) ==> {
            &&& range_mode && free@.len() != 2 ==> m@ == "Usage: ipchk -r <start_ipv4> <end_ipv4>"@
            &&& range_mode && free@.len() == 2 && ipv4_of(free@[0]@) is None ==> m@
                == "range: start must be IPv4: "@ + free@[0]@
            &&& range_mode && free@.len() == 2 && ipv4_of(free@[0]@) is Some && ipv4_of(
                free@[1]@,
            ) is None ==> m@ == "range: end must be IPv4: "@ + free@[1]@
            &&& !range_mode ==> m@ == usage_text(program@)
        },
{
    let timeout_ms = match timeout {
        Some(t) => t,
        None => DEFAULT_TIMEOUT_MS,
    };
    let count = match count {
        Some(n) => if n >= 1 {
            n
        } else {
            1
        },
        None => DEFAULT_COUNT,
    };
    let concurrency = match concurrency {
        Some(c) => if c >= 1 {
            c
        } else {
            1
        },
        None => DEFAULT_CONCURRENCY,
    };
    if range_mode {
        if free.len() != 2 {
            return Err(String::from_str("Usage: ipchk -r <start_ipv4> <end_ipv4>"));
        }
        let start = parse_ipv4_chars(&str_chars(free[0].as_str()));
        let start_key = match start {
            Some(k) => k,
            None => {
                let mut m = String::from_str("range: start must be IPv4: ");
                m.append(free[0].as_str());
                return Err(m);
            },
        };
        let end = parse_ipv4_chars(&str_chars(free[1].as_str()));
        let end_key = match end {
            Some(k) => k,
            None => {
                let mut m = String::from_str("range: end must be IPv4: ");
                m.append(free[1].as_str());
                return Err(m);
            },
        };
        Ok(
            Args {
                range: Some((start_key, end_key)),
                timeout_ms,
                count,
                concurrency,
                ips: Vec::new(),
            },
        )
    } else {
        if free.len() == 0 {
            return Err(usage(program));
        }
        Ok(Args { range: None, timeout_ms, count, concurrency, ips: free })
    }
}

} // verus!
