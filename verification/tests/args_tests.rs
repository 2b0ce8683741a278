use port_sniffer::args::parse_arguments;
use port_sniffer::args::parse_worker_count;
use port_sniffer::args::ArgError;
use port_sniffer::args::CliArg;
use port_sniffer::scan::IpAddress;

fn arg(text: &str, address: Option<IpAddress>) -> CliArg {
    CliArg { text: text.to_string(), address }
}

fn localhost() -> IpAddress {
    IpAddress::V4(127, 0, 0, 1)
}

#[test]
fn no_arguments_is_too_few() {
    let args: Vec<CliArg> = vec![];
    assert_eq!(parse_arguments(&args), Err(ArgError::TooFewArguments));
}

#[test]
fn help_flags_request_help() {
    for flag in ["-h", "-help"] {
        let args = vec![arg(flag, None)];
        assert_eq!(parse_arguments(&args), Err(ArgError::HelpRequested));
    }
}

#[test]
fn help_with_extra_argument_is_too_many() {
    let args = vec![arg("-h", None), arg("10", None)];
    assert_eq!(parse_arguments(&args), Err(ArgError::TooManyArguments));
}

#[test]
fn address_alone_scans_with_default_workers() {
    let args = vec![arg("127.0.0.1", Some(localhost()))];
    let req = parse_arguments(&args).expect("a lone address is a valid invocation");
    assert_eq!(req.target, localhost());
    assert_eq!(req.worker_count, 4);
}

#[test]
fn thread_flag_sets_worker_count() {
    let args = vec![arg("-j", None), arg("10", None), arg("127.0.0.1", Some(localhost()))];
    let req = parse_arguments(&args).unwrap();
    assert_eq!(req.target, localhost());
    assert_eq!(req.worker_count, 10);
}

#[test]
fn unparsable_address_is_invalid_address() {
    let args = vec![arg("-j", None), arg("10", None), arg("not.an.address", None)];
    assert_eq!(parse_arguments(&args), Err(ArgError::InvalidAddress));
}

#[test]
fn bad_thread_counts_are_invalid() {
    for bad in ["abc", "0", "65536", "", "+5", "1x"] {
        let args = vec![arg("-j", None), arg(bad, None), arg("127.0.0.1", Some(localhost()))];
        assert_eq!(parse_arguments(&args), Err(ArgError::InvalidThreadCount), "count text {:?}", bad);
    }
}

#[test]
fn thread_flag_without_operands_is_too_few() {
    let alone = vec![arg("-j", None)];
    assert_eq!(parse_arguments(&alone), Err(ArgError::TooFewArguments));
    let with_count = vec![arg("-j", None), arg("5", None)];
    assert_eq!(parse_arguments(&with_count), Err(ArgError::TooFewArguments));
}

#[test]
fn lone_garbage_is_invalid_syntax() {
    let args = vec![arg("bananas", None)];
    assert_eq!(parse_arguments(&args), Err(ArgError::InvalidSyntax));
}

#[test]
fn four_or_more_arguments_are_too_many() {
    let args = vec![arg("-j", None), arg("10", None), arg("127.0.0.1", Some(localhost())), arg("extra", None)];
    assert_eq!(parse_arguments(&args), Err(ArgError::TooManyArguments));
}

#[test]
fn worker_count_parses_exact_values() {
    assert_eq!(parse_worker_count(&"1".to_string()), Some(1));
    assert_eq!(parse_worker_count(&"4".to_string()), Some(4));
    assert_eq!(parse_worker_count(&"007".to_string()), Some(7));
    assert_eq!(parse_worker_count(&"65535".to_string()), Some(65535));
}

#[test]
fn worker_count_rejects_out_of_range_and_malformed() {
    assert_eq!(parse_worker_count(&"0".to_string()), None);
    assert_eq!(parse_worker_count(&"65536".to_string()), None);
    assert_eq!(parse_worker_count(&"".to_string()), None);
    assert_eq!(parse_worker_count(&"12a".to_string()), None);
    assert_eq!(parse_worker_count(&"+5".to_string()), None);
    assert_eq!(parse_worker_count(&" 5".to_string()), None);
}

#[test]
fn ipv6_targets_carry_through() {
    let target = IpAddress::V6(0, 0, 0, 0, 0, 0, 0, 1);
    let args = vec![arg("::1", Some(target))];
    let req = parse_arguments(&args).unwrap();
    assert_eq!(req.target, target);
    assert_eq!(req.worker_count, 4);
}
