use ipchk::classify::{probed, Outcome, Status};
use ipchk::addr::ipv4_key;
use ipchk::range::IpRange;
use ipchk::report::{render_line, report_lines, resolve_all, sort_by_key};
use ipchk::schedule::take_wave;

fn outcome(target: &str, status: Status, key: u32) -> Outcome {
    Outcome { target: String::from(target), status, key }
}

#[test]
fn report_is_ordered_by_numeric_address() {
    // arrival order is completion order; the report must not follow it
    let arrived = vec![
        probed(String::from("192.168.1.2"), ipv4_key(192, 168, 1, 2), true),
        probed(String::from("1.1.1.1"), ipv4_key(1, 1, 1, 1), false),
        probed(String::from("10.0.0.1"), ipv4_key(10, 0, 0, 1), true),
    ];
    let lines = report_lines(arrived);
    assert_eq!(
        lines,
        vec!["1.1.1.1 is down", "10.0.0.1 is up", "192.168.1.2 is up"]
    );
}

#[test]
fn completion_order_does_not_change_the_report() {
    let a = || probed(String::from("10.0.0.1"), ipv4_key(10, 0, 0, 1), true);
    let b = || probed(String::from("10.0.0.2"), ipv4_key(10, 0, 0, 2), false);
    let c = || probed(String::from("10.0.0.3"), ipv4_key(10, 0, 0, 3), true);
    let one = report_lines(vec![a(), b(), c()]);
    let two = report_lines(vec![c(), a(), b()]);
    let three = report_lines(vec![b(), c(), a()]);
    assert_eq!(one, two);
    assert_eq!(one, three);
}

#[test]
fn tied_keys_keep_arrival_order() {
    let sorted = sort_by_key(vec![
        outcome("zzz", Status::Invalid, 0),
        outcome("aaa", Status::Invalid, 0),
        outcome("::2", Status::UnsupportedFamily, 0),
    ]);
    let order: Vec<&str> = sorted.iter().map(|o| o.target.as_str()).collect();
    assert_eq!(order, vec!["zzz", "aaa", "::2"]);
}

#[test]
fn every_status_renders_its_own_wording() {
    assert_eq!(render_line(&outcome("1.1.1.1", Status::Up, 1)), "1.1.1.1 is up");
    assert_eq!(render_line(&outcome("1.1.1.1", Status::Down, 1)), "1.1.1.1 is down");
    assert_eq!(render_line(&outcome("abc", Status::Invalid, 0)), "abc is invalid");
    assert_eq!(
        render_line(&outcome("::1", Status::UnsupportedFamily, 0)),
        "::1 is IPv6 currently unsupported"
    );
}

#[test]
fn stubbed_sweep_of_two_hosts() {
    // a prober stub: 127.0.0.1 answers, 10.0.0.1 does not
    let targets = vec![String::from("127.0.0.1"), String::from("10.0.0.1")];
    let ups: Vec<bool> = targets.iter().map(|t| t == "127.0.0.1").collect();
    let outcomes = resolve_all(targets, &ups);
    let lines = report_lines(outcomes);
    assert_eq!(lines, vec!["10.0.0.1 is down", "127.0.0.1 is up"]);
}

#[test]
fn one_line_per_target_whatever_the_mix() {
    let targets = vec![
        String::from("10.0.0.2"),
        String::from("::1"),
        String::from("not-an-ip"),
        String::from("10.0.0.1"),
        String::from("256.256.256.256"),
    ];
    let n = targets.len();
    let ups = vec![false; n];
    let outcomes = resolve_all(targets, &ups);
    assert_eq!(outcomes.len(), n);
    let lines = report_lines(outcomes);
    assert_eq!(lines.len(), n);
    // unprobeable targets sort first under key zero, in arrival order
    assert_eq!(
        lines,
        vec![
            "::1 is IPv6 currently unsupported",
            "not-an-ip is invalid",
            "256.256.256.256 is invalid",
            "10.0.0.1 is down",
            "10.0.0.2 is down",
        ]
    );
}

#[test]
fn single_address_range_sweeps_to_one_line() {
    let k = ipv4_key(10, 0, 0, 1);
    let mut range = IpRange::new(k, k);
    let mut lines = Vec::new();
    loop {
        let wave = take_wave(&mut range, 128);
        if wave.is_empty() {
            break;
        }
        let ups = vec![false; wave.len()];
        let outcomes = resolve_all(wave, &ups);
        lines.extend(report_lines(outcomes));
    }
    assert_eq!(lines, vec!["10.0.0.1 is down"]);
}
