use port_sniffer::args::parse_arguments;
use port_sniffer::args::CliArg;
use port_sniffer::scan::simulate_scan;
use port_sniffer::scan::IpAddress;

#[test]
fn scenario_single_open_port() {
    let open: Vec<u16> = vec![22];
    let r = simulate_scan(&open, 4);
    assert_eq!(r, vec![22]);
}

#[test]
fn scenario_no_open_ports() {
    let open: Vec<u16> = vec![];
    let r = simulate_scan(&open, 8);
    assert!(r.is_empty());
}

#[test]
fn scenario_one_worker_matches_many_workers() {
    let open: Vec<u16> = vec![443, 22, 8080];
    let with_one = simulate_scan(&open, 1);
    let with_four = simulate_scan(&open, 4);
    assert_eq!(with_one, with_four);
    assert_eq!(with_one, vec![22, 443, 8080]);
}

#[test]
fn aggregation_closes_for_many_worker_counts() {
    let open: Vec<u16> = vec![];
    for count in 1..=100u16 {
        assert!(simulate_scan(&open, count).is_empty());
    }
}

#[test]
fn top_port_only_reached_by_full_width_partition() {
    let open: Vec<u16> = vec![65535];
    assert!(simulate_scan(&open, 4).is_empty());
    assert_eq!(simulate_scan(&open, 65535), vec![65535]);
}

#[test]
fn duplicate_open_entries_reported_once() {
    let open: Vec<u16> = vec![22, 22];
    assert_eq!(simulate_scan(&open, 4), vec![22]);
}

#[test]
fn report_is_ascending_whatever_the_input_order() {
    let open: Vec<u16> = vec![8080, 22, 443, 80];
    assert_eq!(simulate_scan(&open, 3), vec![22, 80, 443, 8080]);
}

#[test]
fn invocation_drives_the_scan() {
    let target = IpAddress::V4(127, 0, 0, 1);
    let args = vec![
        CliArg { text: "-j".to_string(), address: None },
        CliArg { text: "3".to_string(), address: None },
        CliArg { text: "127.0.0.1".to_string(), address: Some(target) },
    ];
    let request = parse_arguments(&args).unwrap();
    let open: Vec<u16> = vec![80, 22];
    let report = simulate_scan(&open, request.worker_count);
    assert_eq!(report, vec![22, 80]);
}

#[test]
fn port_zero_is_never_probed() {
    let open: Vec<u16> = vec![0, 22];
    assert_eq!(simulate_scan(&open, 2), vec![22]);
}
