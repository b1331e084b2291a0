use ipchk::addr::ipv4_key;
use ipchk::range::IpRange;
use ipchk::schedule::{plan_waves, take_wave};

fn drain(mut r: IpRange) -> Vec<u32> {
    let mut out = Vec::new();
    while let Some(k) = r.next() {
        out.push(k);
    }
    out
}

#[test]
fn range_endpoints_commute() {
    let a = ipv4_key(10, 0, 0, 5);
    let b = ipv4_key(10, 0, 0, 1);
    let forward = drain(IpRange::new(b, a));
    let backward = drain(IpRange::new(a, b));
    let expected: Vec<u32> = (ipv4_key(10, 0, 0, 1)..=ipv4_key(10, 0, 0, 5)).collect();
    assert_eq!(forward, expected);
    assert_eq!(backward, expected);
}

#[test]
fn single_element_range() {
    let k = ipv4_key(10, 0, 0, 1);
    assert_eq!(drain(IpRange::new(k, k)), vec![k]);
}

#[test]
fn range_stops_at_the_greatest_address() {
    let ks = drain(IpRange::new(u32::MAX - 1, u32::MAX));
    assert_eq!(ks, vec![u32::MAX - 1, u32::MAX]);
}

#[test]
fn waves_from_a_range_are_bounded_and_ordered() {
    let mut r = IpRange::new(ipv4_key(10, 0, 0, 1), ipv4_key(10, 0, 0, 10));
    let mut all = Vec::new();
    let mut sizes = Vec::new();
    loop {
        let wave = take_wave(&mut r, 4);
        if wave.is_empty() {
            break;
        }
        assert!(wave.len() <= 4);
        sizes.push(wave.len());
        all.extend(wave);
    }
    assert_eq!(sizes, vec![4, 4, 2]);
    let expected: Vec<String> = (1..=10).map(|d| format!("10.0.0.{d}")).collect();
    assert_eq!(all, expected);
}

#[test]
fn waves_from_a_list_partition_it() {
    let targets: Vec<String> = (1..=10).map(|d| format!("192.168.0.{d}")).collect();
    let waves = plan_waves(targets.clone(), 3);
    assert_eq!(waves.len(), 4);
    for (i, w) in waves.iter().enumerate() {
        assert!(!w.is_empty() && w.len() <= 3);
        if i + 1 < waves.len() {
            assert_eq!(w.len(), 3);
        }
    }
    let flat: Vec<String> = waves.into_iter().flatten().collect();
    assert_eq!(flat, targets);
}

#[test]
fn one_wave_when_concurrency_exceeds_the_list() {
    let targets = vec![String::from("1.1.1.1"), String::from("8.8.8.8")];
    let waves = plan_waves(targets.clone(), 128);
    assert_eq!(waves.len(), 1);
    assert_eq!(waves[0], targets);
}
