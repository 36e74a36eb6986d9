use pbft::config::parse_node_list;
use pbft::ips::{add_node, node_address, node_url, peers_to_probe};

fn strings(v: &[&str]) -> Vec<String> {
    v.iter().map(|s| s.to_string()).collect()
}

#[test]
fn add_node_appends_in_order() {
    let mut remote: Vec<String> = Vec::new();
    add_node(&mut remote, "10.0.0.1:8080".to_string());
    add_node(&mut remote, "10.0.0.2:8080".to_string());
    assert_eq!(remote, strings(&["10.0.0.1:8080", "10.0.0.2:8080"]));
}

#[test]
fn add_node_keeps_duplicates() {
    let mut remote = strings(&["a"]);
    add_node(&mut remote, "a".to_string());
    assert_eq!(remote, strings(&["a", "a"]));
}

#[test]
fn probe_skips_this_node() {
    let remote = strings(&["n1:1", "me:2", "n3:3", "me:2"]);
    let peers = peers_to_probe(&remote, &"me:2".to_string());
    assert_eq!(peers, strings(&["n1:1", "n3:3"]));
}

#[test]
fn probe_of_empty_list_is_empty() {
    let peers = peers_to_probe(&Vec::new(), &"me:2".to_string());
    assert!(peers.is_empty());
}

#[test]
fn probe_keeps_all_when_self_absent() {
    let remote = strings(&["x", "y"]);
    assert_eq!(peers_to_probe(&remote, &"z".to_string()), remote);
}

#[test]
fn address_joins_ip_and_port() {
    assert_eq!(node_address("127.0.0.1", "8000"), "127.0.0.1:8000");
    assert_eq!(node_address("", ""), ":");
}

#[test]
fn url_uses_plain_http() {
    assert_eq!(node_url("127.0.0.1:8000", "/running"), "http://127.0.0.1:8000/running");
    assert_eq!(node_url("h:1", "/vote"), "http://h:1/vote");
}

#[test]
fn parse_splits_and_trims() {
    assert_eq!(parse_node_list("a:1, b:2 ,c:3"), strings(&["a:1", "b:2", "c:3"]));
}

#[test]
fn parse_empty_is_one_empty_node() {
    assert_eq!(parse_node_list(""), strings(&[""]));
}

#[test]
fn parse_keeps_empty_pieces() {
    assert_eq!(parse_node_list("a,,b,"), strings(&["a", "", "b", ""]));
}

#[test]
fn parse_piece_count_is_commas_plus_one() {
    let s = "1,2,3,4,5";
    let commas = s.chars().filter(|c| *c == ',').count();
    assert_eq!(parse_node_list(s).len(), commas + 1);
}

#[test]
fn parse_trims_unicode_white_space() {
    assert_eq!(parse_node_list(" \t\n x y \u{3000}\u{a0}"), strings(&["x y"]));
    assert_eq!(parse_node_list("\u{2003}"), strings(&[""]));
}

#[test]
fn parse_matches_std_split_and_trim() {
    for s in ["a, b", " , ", "é, ü ,\u{85}z\u{2029}", "one", ",,,"] {
        let expected: Vec<String> = s.split(',').map(|n| n.trim().to_string()).collect();
        assert_eq!(parse_node_list(s), expected);
    }
}

#[test]
fn parse_pieces_hold_no_comma_and_rejoin() {
    let s = "p,q ,r";
    let pieces = parse_node_list(s);
    assert!(pieces.iter().all(|p| !p.contains(',')));
    assert_eq!(pieces.join(","), "p,q,r");
}

#[test]
fn joined_list_reads_back() {
    let list = strings(&["10.0.0.1:80", "10.0.0.2:81", "", "h:1"]);
    assert_eq!(parse_node_list(&list.join(",")), list);
}

#[test]
fn parsed_addresses_are_clean() {
    for a in parse_node_list(" x ,\ty\t,, z z ,\u{2028}") {
        assert!(!a.contains(','));
        assert_eq!(a.trim(), a);
    }
}
