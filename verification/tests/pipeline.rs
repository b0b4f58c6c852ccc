use cosmoping::net_info::{
    convert_to_netinfo, fallback_status_port, get_port_from_listen_addr, net_info_url, NetInfo,
    NodeInfo, Peer, ResultData, DEFAULT_STATUS_PORT,
};
use cosmoping::parser::{AddrBook, AddressInfo, NodeInfo as BookNodeInfo};
use cosmoping::pinger::{resolve_candidates, AddrBookPinger, GeoInfo, MonikerData, ProbeOutcome};

fn book_entry(id: &str, ip: &str, port: u16) -> AddressInfo {
    AddressInfo {
        addr: BookNodeInfo { id: id.to_string(), ip: ip.to_string(), port },
        src: BookNodeInfo { id: id.to_string(), ip: ip.to_string(), port },
        buckets: vec![0],
        attempts: 0,
        bucket_type: 0,
        last_attempt: String::new(),
        last_success: String::new(),
        last_ban_time: String::new(),
    }
}

fn discovered(id: &str, moniker: &str, ip: &str, port: Option<u64>) -> MonikerData {
    MonikerData {
        id: id.to_string(),
        moniker: moniker.to_string(),
        remote_ip: ip.to_string(),
        port,
    }
}

fn geo(city: Option<&str>, country: Option<&str>) -> GeoInfo {
    GeoInfo {
        ip: None,
        city: city.map(|s| s.to_string()),
        region: None,
        country: country.map(|s| s.to_string()),
        loc: None,
        org: None,
        postal: None,
        timezone: None,
        readme: None,
    }
}

#[test]
fn port_extraction_trailing_digits() {
    assert_eq!(
        get_port_from_listen_addr("tcp://0.0.0.0:26656".to_string()),
        Some(26656)
    );
}

#[test]
fn port_extraction_no_trailing_port() {
    assert_eq!(get_port_from_listen_addr("tcp://0.0.0.0".to_string()), None);
}

#[test]
fn port_extraction_edge_cases() {
    assert_eq!(get_port_from_listen_addr(String::new()), None);
    assert_eq!(get_port_from_listen_addr("no-colon-here".to_string()), None);
    assert_eq!(get_port_from_listen_addr("tcp://0.0.0.0:".to_string()), None);
    assert_eq!(get_port_from_listen_addr("tcp://0.0.0.0:26656x".to_string()), None);
    assert_eq!(
        get_port_from_listen_addr("tcp://0.0.0.0:99999999999999999999".to_string()),
        None
    );
    assert_eq!(get_port_from_listen_addr(":7".to_string()), Some(7));
    assert_eq!(
        get_port_from_listen_addr("tcp://0.0.0.0:18446744073709551615".to_string()),
        Some(u64::MAX)
    );
}

#[test]
fn discovery_ports() {
    assert_eq!(DEFAULT_STATUS_PORT, 26657);
    assert_eq!(fallback_status_port(26656), 26657);
}

#[test]
fn discovery_url() {
    let url = net_info_url(&"10.0.0.1".to_string(), 26657);
    assert_eq!(url, "http://10.0.0.1:26657/net_info");
}

#[test]
fn convert_keeps_only_target_network() {
    let ni = NetInfo {
        result: ResultData {
            peers: vec![
                Peer {
                    node_info: NodeInfo {
                        id: "A".to_string(),
                        network: "gaia".to_string(),
                        moniker: "alpha".to_string(),
                        listen_addr: "tcp://0.0.0.0:26656".to_string(),
                    },
                    remote_ip: "1.1.1.1".to_string(),
                },
                Peer {
                    node_info: NodeInfo {
                        id: "B".to_string(),
                        network: "other".to_string(),
                        moniker: "beta".to_string(),
                        listen_addr: "tcp://0.0.0.0:26656".to_string(),
                    },
                    remote_ip: "2.2.2.2".to_string(),
                },
                Peer {
                    node_info: NodeInfo {
                        id: "C".to_string(),
                        network: "gaia".to_string(),
                        moniker: "gamma".to_string(),
                        listen_addr: "tcp://0.0.0.0".to_string(),
                    },
                    remote_ip: "3.3.3.3".to_string(),
                },
            ],
        },
    };
    let mds = convert_to_netinfo(ni, "gaia");
    assert_eq!(mds.len(), 2);
    assert_eq!(mds[0].id, "A");
    assert_eq!(mds[0].moniker, "alpha");
    assert_eq!(mds[0].remote_ip, "1.1.1.1");
    assert_eq!(mds[0].port, Some(26656));
    assert_eq!(mds[1].id, "C");
    assert_eq!(mds[1].port, None);
}

#[test]
fn resolve_dedups_first_write_wins() {
    let book = AddrBook { key: "k".to_string(), addrs: vec![] };
    let mds = vec![
        discovered("A", "first", "1.1.1.1", Some(1)),
        discovered("A", "second", "9.9.9.9", Some(2)),
        discovered("B", "beta", "2.2.2.2", None),
    ];
    let cands = resolve_candidates(&book, mds);
    assert_eq!(cands.len(), 2);
    assert_eq!(cands[0].id, "A");
    assert_eq!(cands[0].moniker, "first");
    assert_eq!(cands[0].remote_ip, "1.1.1.1");
    assert_eq!(cands[0].port, Some(1));
    assert_eq!(cands[1].id, "B");
}

#[test]
fn resolve_synthesizes_unknown_for_uncovered_entries() {
    let book = AddrBook {
        key: "k".to_string(),
        addrs: vec![book_entry("A", "1.1.1.1", 26656), book_entry("B", "2.2.2.2", 26756)],
    };
    let cands = resolve_candidates(&book, vec![discovered("A", "alpha", "5.5.5.5", Some(7))]);
    assert_eq!(cands.len(), 2);
    assert_eq!(cands[0].id, "A");
    assert_eq!(cands[0].moniker, "alpha");
    assert_eq!(cands[1].id, "B");
    assert_eq!(cands[1].moniker, "Unknown");
    assert_eq!(cands[1].remote_ip, "2.2.2.2");
    assert_eq!(cands[1].port, Some(26756));
}

#[test]
fn discovery_moniker_wins_over_fallback() {
    let book = AddrBook { key: "k".to_string(), addrs: vec![book_entry("A", "1.1.1.1", 26656)] };
    let cands = resolve_candidates(&book, vec![discovered("A", "named-by-peer", "1.1.1.1", None)]);
    assert_eq!(cands.len(), 1);
    assert_eq!(cands[0].moniker, "named-by-peer");
}

#[test]
fn two_entry_scenario_reachable_first() {
    let book = AddrBook {
        key: "k".to_string(),
        addrs: vec![book_entry("A", "1.1.1.1", 26656), book_entry("B", "2.2.2.2", 26656)],
    };
    let pinger = AddrBookPinger::new(None);
    let cands = resolve_candidates(&book, vec![]);
    let outcomes = vec![
        ProbeOutcome { latency_in_milliseconds: Some(50), geo: None },
        ProbeOutcome { latency_in_milliseconds: None, geo: None },
    ];
    let report = pinger.assemble_report(cands, outcomes);
    assert_eq!(report.report_lines.len(), 2);
    assert_eq!(report.report_lines[0].id, "A");
    assert_eq!(report.report_lines[0].latency_in_milliseconds, Some(50));
    assert_eq!(report.report_lines[0].city, None);
    assert_eq!(report.report_lines[0].country, None);
    assert_eq!(report.report_lines[1].id, "B");
    assert_eq!(report.report_lines[1].latency_in_milliseconds, None);
    assert_eq!(report.report_lines[1].city, None);
    assert_eq!(report.report_lines[1].country, None);
}

#[test]
fn report_covers_every_book_entry_exactly_once() {
    let book = AddrBook {
        key: "k".to_string(),
        addrs: vec![book_entry("A", "1.1.1.1", 26656), book_entry("B", "2.2.2.2", 26656)],
    };
    // discovery names A twice (second one late) and a third peer C
    let mds = vec![
        discovered("A", "alpha", "1.1.1.1", Some(1)),
        discovered("C", "gamma", "3.3.3.3", Some(3)),
        discovered("A", "late", "9.9.9.9", Some(9)),
    ];
    let cands = resolve_candidates(&book, mds);
    let n = cands.len();
    let outcomes: Vec<ProbeOutcome> = (0..n)
        .map(|_| ProbeOutcome { latency_in_milliseconds: None, geo: None })
        .collect();
    let report = AddrBookPinger::new(None).assemble_report(cands, outcomes);
    for id in ["A", "B", "C"] {
        let hits: Vec<_> = report.report_lines.iter().filter(|l| l.id == id).collect();
        assert_eq!(hits.len(), 1, "one line for {}", id);
    }
    assert_eq!(report.report_lines.len(), 3);
    let b_line = report.report_lines.iter().find(|l| l.id == "B").unwrap();
    assert_eq!(b_line.moniker, "Unknown");
    let a_line = report.report_lines.iter().find(|l| l.id == "A").unwrap();
    assert_eq!(a_line.moniker, "alpha");
}

#[test]
fn report_orders_worst_latency_first_and_is_stable() {
    let cands = vec![
        discovered("a", "ma", "1.1.1.1", None),
        discovered("b", "mb", "2.2.2.2", None),
        discovered("c", "mc", "3.3.3.3", None),
        discovered("d", "md", "4.4.4.4", None),
        discovered("e", "me", "5.5.5.5", None),
    ];
    let outcomes = vec![
        ProbeOutcome { latency_in_milliseconds: Some(10), geo: None },
        ProbeOutcome { latency_in_milliseconds: None, geo: None },
        ProbeOutcome { latency_in_milliseconds: Some(50), geo: None },
        ProbeOutcome { latency_in_milliseconds: Some(50), geo: None },
        ProbeOutcome { latency_in_milliseconds: Some(30), geo: None },
    ];
    let pinger = AddrBookPinger::new(None);
    let report = pinger.assemble_report(cands, outcomes);
    let ids: Vec<&str> = report.report_lines.iter().map(|l| l.id.as_str()).collect();
    assert_eq!(ids, vec!["c", "d", "e", "a", "b"]);
}

#[test]
fn geo_copied_only_with_key_and_latency() {
    let with_key = AddrBookPinger::new(Some("token".to_string()));
    let line = with_key.build_report_line(
        discovered("A", "alpha", "1.1.1.1", Some(26656)),
        ProbeOutcome {
            latency_in_milliseconds: Some(12),
            geo: Some(geo(Some("Berlin"), Some("DE"))),
        },
    );
    assert_eq!(line.city, Some("Berlin".to_string()));
    assert_eq!(line.country, Some("DE".to_string()));
    assert_eq!(line.latency_in_milliseconds, Some(12));
    assert_eq!(line.host, "1.1.1.1");
    assert_eq!(line.moniker, "alpha");
}

#[test]
fn geo_dropped_without_key() {
    let no_key = AddrBookPinger::new(None);
    let line = no_key.build_report_line(
        discovered("A", "alpha", "1.1.1.1", None),
        ProbeOutcome {
            latency_in_milliseconds: Some(12),
            geo: Some(geo(Some("Berlin"), Some("DE"))),
        },
    );
    assert_eq!(line.city, None);
    assert_eq!(line.country, None);
}

#[test]
fn geo_dropped_for_unreachable_candidate() {
    let with_key = AddrBookPinger::new(Some("token".to_string()));
    let line = with_key.build_report_line(
        discovered("A", "alpha", "1.1.1.1", None),
        ProbeOutcome {
            latency_in_milliseconds: None,
            geo: Some(geo(Some("Berlin"), Some("DE"))),
        },
    );
    assert_eq!(line.latency_in_milliseconds, None);
    assert_eq!(line.city, None);
    assert_eq!(line.country, None);
}

#[test]
fn geo_request_gated_by_key_and_latency() {
    let with_key = AddrBookPinger::new(Some("tok".to_string()));
    let url = with_key.geo_request(&"1.2.3.4".to_string(), &Some(5u64));
    assert_eq!(url, Some("https://ipinfo.io/1.2.3.4?token=tok".to_string()));
    assert_eq!(with_key.geo_request(&"1.2.3.4".to_string(), &None), None);
    let no_key = AddrBookPinger::new(None);
    assert_eq!(no_key.geo_request(&"1.2.3.4".to_string(), &Some(5u64)), None);
}
