use net_reduce::reduce_cidrs;

fn sorted(mut v: Vec<String>) -> Vec<String> {
    v.sort();
    v
}

fn strings(v: &[&str]) -> Vec<String> {
    v.iter().map(|s| s.to_string()).collect()
}

#[test]
fn lib_test_reduce_cidrs() {
    let lines = vec![
        "2001:678:1e0:0::/64".to_string(),
        "2001:678:1e0::1".to_string(),
        "2001:678:1e0:100::/56".to_string(),
        "2001:678:1e0:110::1/128".to_string(),
        "2001:678:1e0:200::2/128".to_string(),
        "2001:678:1e0:2xx::2/128".to_string(),
        "172.24.0.1".to_string(),
        "192.168.2.0/24".to_string(),
        "192.168.0.0/16".to_string(),
        "192,45.3.1".to_string(),
    ];

    let mut expected = vec![
        "172.24.0.1/32".to_string(),
        "192.168.0.0/16".to_string(),
        "2001:678:1e0::/64".to_string(),
        "2001:678:1e0:100::/56".to_string(),
        "2001:678:1e0:200::2/128".to_string(),
    ];
    expected.sort();

    let mut result = reduce_cidrs(lines);
    result.sort();

    assert_eq!(expected, result);
}

#[test]
fn reduce_test_reduce_cidrs() {
    let lines = vec![
        "2001:678:1e0:0::/64".to_string(),
        "2001:678:1e0::1".to_string(),
        "2001:678:1e0:100::/56".to_string(),
        "2001:678:1e0:110::1/128".to_string(),
        "2001:678:1e0:200::2/128".to_string(),
        "2001:678:1e0:2xx::2/128".to_string(),
        "172.24.0.1".to_string(),
        "192.168.2.0/24".to_string(),
        "192.168.0.0/16".to_string(),
        "192,45.3.1".to_string(),
    ];

    let mut expected = vec![
        "172.24.0.1/32".to_string(),
        "192.168.0.0/16".to_string(),
        "2001:678:1e0::/64".to_string(),
        "2001:678:1e0:100::/56".to_string(),
        "2001:678:1e0:200::2/128".to_string(),
    ];
    expected.sort();

    let mut result = net_reduce::reduce::reduce_cidrs(lines);
    result.sort();

    assert_eq!(expected, result);
}

#[test]
fn scenario_nested_ipv4_blocks() {
    let result = sorted(reduce_cidrs(strings(&[
        "192.168.0.0/16",
        "192.168.1.0/24",
        "192.168.1.1",
        "10.0.0.0/8",
    ])));
    assert_eq!(result, sorted(strings(&["192.168.0.0/16", "10.0.0.0/8"])));
}

#[test]
fn scenario_nested_ipv6_blocks() {
    let result = sorted(reduce_cidrs(strings(&[
        "2001:678:1e0::/64",
        "2001:678:1e0::1",
        "2001:678:1e0:100::/56",
        "2001:678:1e0:200::2/128",
    ])));
    assert_eq!(
        result,
        sorted(strings(&[
            "2001:678:1e0::/64",
            "2001:678:1e0:100::/56",
            "2001:678:1e0:200::2/128",
        ]))
    );
}

#[test]
fn scenario_malformed_line_ignored() {
    let result = reduce_cidrs(strings(&["not an ip", "192.168.1.0/24"]));
    assert_eq!(result, strings(&["192.168.1.0/24"]));
}

#[test]
fn scenario_empty_input() {
    let result = reduce_cidrs(Vec::new());
    assert!(result.is_empty());
}

#[test]
fn scenario_duplicate_collapses() {
    let result = reduce_cidrs(strings(&["10.0.0.0/8", "10.0.0.0/8"]));
    assert_eq!(result, strings(&["10.0.0.0/8"]));
}

#[test]
fn scenario_mixed_families() {
    let result = sorted(reduce_cidrs(strings(&[
        "192.168.1.0/24",
        "192.168.1.1",
        "2001:db8::/32",
        "2001:db8::1",
    ])));
    assert_eq!(result, sorted(strings(&["192.168.1.0/24", "2001:db8::/32"])));
}

#[test]
fn scenario_zero_length_prefix_covers_family() {
    let result = sorted(reduce_cidrs(strings(&[
        "0.0.0.0/0",
        "10.0.0.0/8",
        "1.2.3.4",
        "2001:db8::1",
    ])));
    assert_eq!(result, sorted(strings(&["0.0.0.0/0", "2001:db8::1/128"])));
}

#[test]
fn output_is_minimal() {
    let out = reduce_cidrs(strings(&[
        "10.0.0.0/8",
        "10.1.0.0/16",
        "10.1.1.0/24",
        "192.0.2.0/24",
        "192.0.2.128/25",
        "2001:db8::/32",
        "2001:db8:1::/48",
    ]));
    let parsed: Vec<_> = out
        .iter()
        .map(|s| net_reduce::cidr::from_str(s).expect("output parses"))
        .collect();
    for a in &parsed {
        for b in &parsed {
            let strict_sub_prefix = a.len < b.len && a.contains_addr_of(b);
            assert!(!strict_sub_prefix);
        }
    }
}

#[test]
fn output_covers_every_input_exactly_once() {
    let input = strings(&[
        "10.0.0.0/8",
        "10.1.0.0/16",
        "10.1.1.1",
        "192.0.2.0/24",
        "2001:db8::/32",
        "2001:db8::1",
    ]);
    let out = reduce_cidrs(input.clone());
    let out_parsed: Vec<_> = out
        .iter()
        .map(|s| net_reduce::cidr::from_str(s).expect("output parses"))
        .collect();
    for line in &input {
        let p = net_reduce::cidr::from_str(line).expect("input parses");
        let containing = out_parsed.iter().filter(|o| o.contains_addr_of(&p)).count();
        assert_eq!(containing, 1);
    }
}

#[test]
fn families_reduce_independently() {
    let mixed = strings(&[
        "192.168.0.0/16",
        "192.168.1.0/24",
        "2001:db8::/32",
        "2001:db8:0:1::1",
        "10.9.8.7",
    ]);
    let v6_only: Vec<String> = mixed
        .iter()
        .filter(|l| l.contains(':'))
        .cloned()
        .collect();

    let from_mixed: Vec<String> = reduce_cidrs(mixed)
        .into_iter()
        .filter(|l| l.contains(':'))
        .collect();
    let from_v6_only = reduce_cidrs(v6_only);

    assert_eq!(sorted(from_mixed), sorted(from_v6_only));
}

#[test]
fn reduction_is_idempotent() {
    let input = strings(&[
        "192.168.0.0/16",
        "192.168.1.0/24",
        "192.168.1.1",
        "10.0.0.0/8",
        "2001:db8::/32",
        "2001:db8::1",
    ]);
    let once = reduce_cidrs(input);
    let twice = reduce_cidrs(once.clone());
    assert_eq!(sorted(once), sorted(twice));
}

#[test]
fn reduction_ignores_line_order() {
    let input = strings(&[
        "10.0.0.0/8",
        "10.1.0.0/16",
        "192.0.2.1",
        "2001:db8::/32",
        "2001:db8::1",
    ]);
    let mut reversed = input.clone();
    reversed.reverse();
    assert_eq!(sorted(reduce_cidrs(input)), sorted(reduce_cidrs(reversed)));
}
