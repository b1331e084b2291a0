use ipchk::cli::{build_args, usage, DEFAULT_CONCURRENCY, DEFAULT_COUNT, DEFAULT_TIMEOUT_MS};
use ipchk::addr::ipv4_key;

#[test]
fn defaults_apply_when_options_are_absent() {
    let args = build_args("ipchk", None, None, None, false, vec![String::from("1.1.1.1")])
        .expect("one positional address suffices");
    assert_eq!(args.timeout_ms, DEFAULT_TIMEOUT_MS);
    assert_eq!(args.count, DEFAULT_COUNT);
    assert_eq!(args.concurrency, DEFAULT_CONCURRENCY);
    assert!(args.range.is_none());
    assert_eq!(args.ips, vec![String::from("1.1.1.1")]);
}

#[test]
fn count_and_concurrency_are_raised_to_one() {
    let args = build_args(
        "ipchk",
        Some(750),
        Some(0),
        Some(0),
        false,
        vec![String::from("1.1.1.1")],
    )
    .expect("valid list");
    assert_eq!(args.timeout_ms, 750);
    assert_eq!(args.count, 1);
    assert_eq!(args.concurrency, 1);
}

#[test]
fn range_mode_wants_exactly_two_endpoints() {
    let err = build_args("ipchk", None, None, None, true, vec![String::from("10.0.0.1")])
        .expect_err("one endpoint is not enough");
    assert_eq!(err, "Usage: ipchk -r <start_ipv4> <end_ipv4>");
}

#[test]
fn range_mode_rejects_non_ipv4_endpoints() {
    let err = build_args(
        "ipchk",
        None,
        None,
        None,
        true,
        vec![String::from("foo"), String::from("10.0.0.1")],
    )
    .expect_err("start must parse");
    assert_eq!(err, "range: start must be IPv4: foo");
    let err = build_args(
        "ipchk",
        None,
        None,
        None,
        true,
        vec![String::from("10.0.0.1"), String::from("::1")],
    )
    .expect_err("end must parse, and IPv6 does not count");
    assert_eq!(err, "range: end must be IPv4: ::1");
}

#[test]
fn range_endpoints_keep_their_written_order() {
    let args = build_args(
        "ipchk",
        None,
        None,
        None,
        true,
        vec![String::from("10.0.0.5"), String::from("10.0.0.1")],
    )
    .expect("two valid endpoints");
    assert_eq!(args.range, Some((ipv4_key(10, 0, 0, 5), ipv4_key(10, 0, 0, 1))));
    assert!(args.ips.is_empty());
}

#[test]
fn an_empty_list_earns_the_help_text() {
    let err = build_args("ipchk", None, None, None, false, Vec::new())
        .expect_err("no targets given");
    assert_eq!(err, usage("ipchk"));
    assert!(err.starts_with("Usage:"));
}

#[test]
fn usage_names_the_program_and_the_defaults() {
    let text = usage("ipchk");
    let expected = format!(
        "Usage:
  {p} <IP1> <IP2> ...                       # ping positional addresses
  {p} -r <start_ipv4> <end_ipv4>            # ping inclusive IPv4 range

Options:
  -r, --range            Upper- and lower-limit IPv4 addresses (inclusive)
  -t, --timeout          Per-probe timeout in milliseconds (default: 2000)
  -n, --count            Probes per host; succeed on first reply (default: 4)
  -c, --concurrency      Max simultaneous hosts in flight (default: 128)
  -h, --help             Show this help

Examples:
  {p} 192.168.1.1 192.168.1.2 1.1.1.1
  {p} -r 172.16.0.1 172.16.1.254 -t 750 -n 3 -c 256
",
        p = "ipchk"
    );
    assert_eq!(text, expected);
}
