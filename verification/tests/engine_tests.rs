use net_reduce::cidr::from_str;
use net_reduce::prefix::Prefix;
use net_reduce::reduce_prefix_list::ReducePrefixList;
use net_reduce::reduce_trie::ReduceTrie;

#[test]
fn test_reduce() {
    let mut trie = ReducePrefixList::new();

    assert!(trie.insert(from_str("10.0.0.0/8").expect("valid prefix")));
    assert!(trie.insert(from_str("fd00::/8").expect("valid prefix")));
    assert!(trie.insert(from_str("192.168.0.0/16").expect("valid prtest_reduceefix")));
    assert!(!trie.insert(from_str("10.0.1.0/24").expect("valid prefix")));
    assert!(trie.insert(from_str("2001:678:1e0::/48").expect("valid prefix")));
    assert!(!trie.insert(from_str("2001:678:1e0:100::/56").expect("valid prefix")));
}

fn parse_all(lines: &[&str]) -> Vec<Prefix> {
    lines.iter().map(|l| from_str(l).expect("valid prefix")).collect()
}

#[test]
fn trie_reduces_nested_blocks() {
    let prefixes = parse_all(&[
        "192.168.0.0/16",
        "192.168.1.0/24",
        "192.168.1.1",
        "10.0.0.0/8",
    ]);
    let mut result = ReduceTrie::from_prefixes(prefixes).get_all_prefixes();
    result.sort();
    let mut expected = parse_all(&["192.168.0.0/16", "10.0.0.0/8"]);
    expected.sort();
    assert_eq!(result, expected);
}

#[test]
fn trie_keeps_uncovered_hosts() {
    let prefixes = parse_all(&["10.0.0.0/8", "10.1.2.3", "11.1.2.3", "2001:db8::1"]);
    let mut result = ReduceTrie::from_prefixes(prefixes).get_all_prefixes();
    result.sort();
    let mut expected = parse_all(&["10.0.0.0/8", "11.1.2.3", "2001:db8::1"]);
    expected.sort();
    assert_eq!(result, expected);
}

#[test]
fn both_engines_retain_the_same_set() {
    let prefixes = parse_all(&[
        "2001:678:1e0::/64",
        "2001:678:1e0::1",
        "2001:678:1e0:100::/56",
        "2001:678:1e0:200::2/128",
        "172.24.0.1",
        "192.168.2.0/24",
        "192.168.0.0/16",
        "0.0.0.0/0",
    ]);

    let mut from_trie = ReduceTrie::from_prefixes(prefixes.clone()).get_all_prefixes();
    from_trie.sort();
    from_trie.dedup();

    let mut from_list = ReducePrefixList::with_prefixes(prefixes).get_all_prefixes();
    from_list.sort();
    from_list.dedup();

    assert_eq!(from_trie, from_list);
}

#[test]
fn list_insert_rejects_exact_duplicate() {
    let mut list = ReducePrefixList::new();
    assert!(list.insert(from_str("203.0.113.0/24").expect("valid prefix")));
    assert!(!list.insert(from_str("203.0.113.0/24").expect("valid prefix")));
    assert_eq!(list.get_all_prefixes().len(), 1);
}
