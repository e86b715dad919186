use itmsink::cli::{parse_output, parse_port, parse_ports, CliError};

#[test]
fn port_parses_in_range() {
    assert_eq!(parse_port("0"), Ok(0));
    assert_eq!(parse_port("5"), Ok(5));
    assert_eq!(parse_port("31"), Ok(31));
    assert_eq!(parse_port("007"), Ok(7));
}

#[test]
fn port_out_of_range_is_rejected() {
    assert_eq!(parse_port("32"), Err(CliError::PortOutOfRange));
    assert_eq!(parse_port("100"), Err(CliError::PortOutOfRange));
    assert_eq!(parse_port("99999999999999999999999"), Err(CliError::PortOutOfRange));
}

#[test]
fn port_must_be_decimal() {
    assert_eq!(parse_port(""), Err(CliError::InvalidPort));
    assert_eq!(parse_port("a"), Err(CliError::InvalidPort));
    assert_eq!(parse_port("1x"), Err(CliError::InvalidPort));
    assert_eq!(parse_port("-1"), Err(CliError::InvalidPort));
    assert_eq!(parse_port("+1"), Err(CliError::InvalidPort));
}

#[test]
fn ports_wildcard_is_empty_selection() {
    assert_eq!(parse_ports("all"), Ok(Vec::new()));
}

#[test]
fn ports_lists_parse_in_order() {
    assert_eq!(parse_ports("1"), Ok(vec![1]));
    assert_eq!(parse_ports("1,2,31"), Ok(vec![1, 2, 31]));
    assert_eq!(parse_ports("3,3"), Ok(vec![3, 3]));
}

#[test]
fn ports_list_reports_first_bad_chunk() {
    assert_eq!(parse_ports("1,,2"), Err(CliError::InvalidPort));
    assert_eq!(parse_ports("1,99,x"), Err(CliError::PortOutOfRange));
    assert_eq!(parse_ports("all,1"), Err(CliError::InvalidPort));
    assert_eq!(parse_ports("1,2,"), Err(CliError::InvalidPort));
}

#[test]
fn output_spec_with_path() {
    let out = parse_output(b"1:/tmp/a").unwrap();
    assert_eq!(out.ports, vec![1]);
    assert_eq!(out.path, Some(b"/tmp/a".to_vec()));
}

#[test]
fn output_spec_without_path_is_stdout() {
    let out = parse_output(b"all").unwrap();
    assert!(out.ports.is_empty());
    assert_eq!(out.path, None);
}

#[test]
fn output_spec_keeps_colons_in_path() {
    let out = parse_output(b"2,3:C:\\trace.bin").unwrap();
    assert_eq!(out.ports, vec![2, 3]);
    assert_eq!(out.path, Some(b"C:\\trace.bin".to_vec()));
}

#[test]
fn output_spec_with_bad_ports_fails() {
    assert_eq!(parse_output(b"64:/tmp/a").unwrap_err(), CliError::PortOutOfRange);
    assert_eq!(parse_output(b"nope").unwrap_err(), CliError::InvalidPort);
}

#[test]
fn error_messages_name_the_fault() {
    assert!(CliError::InvalidPort.message().contains("invalid"));
    assert!(CliError::PortOutOfRange.message().contains("31"));
}
