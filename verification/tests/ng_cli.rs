use xvcd::ng::cli::{parse_hex_u16, BackendMode, CliArgs};

#[test]
fn cli_test_cli_default_argument_fallback() {
    let args = CliArgs::try_parse_from(&["xvcd-ng"]);
    assert!(args.is_ok());

    let config = args.unwrap();
    assert_eq!(config.port, 2542);
    assert_eq!(config.vid, 0x0403);
    assert_eq!(config.pid, 0x6010);
    assert_eq!(config.mode, BackendMode::Bitbang);
}

#[test]
fn cli_test_cli_custom_hex_and_port_parsing_long() {
    let args = CliArgs::try_parse_from(&[
        "xvcd-ng", "--port", "3000", "--vid", "0xabcd", "--pid", "1234", "--mode", "mpsse",
    ]);
    assert!(args.is_ok());

    let config = args.unwrap();
    assert_eq!(config.port, 3000);
    assert_eq!(config.vid, 0xabcd);
    assert_eq!(config.pid, 0x1234);
    assert_eq!(config.mode, BackendMode::Mpsse);
}

#[test]
fn cli_test_cli_custom_hex_and_port_parsing_short() {
    let args = CliArgs::try_parse_from(&["xvcd-ng", "-P", "3000", "-v", "0xabcd", "-p", "1234", "-m", "mpsse"]);
    assert!(args.is_ok());

    let config = args.unwrap();
    assert_eq!(config.port, 3000);
    assert_eq!(config.vid, 0xabcd);
    assert_eq!(config.pid, 0x1234);
    assert_eq!(config.mode, BackendMode::Mpsse);
}

#[test]
fn cli_test_cli_invalid_hex_rejection() {
    let args = CliArgs::try_parse_from(&["xvcd-ng", "--vid", "invalid_hex_string"]);
    assert!(args.is_err()); // Ensure malformed hex inputs are rejected gracefully
}

#[test]
fn ng_has_no_channel_option() {
    assert!(CliArgs::try_parse_from(&["xvcd-ng", "--channel", "1"]).is_err());
    assert!(CliArgs::try_parse_from(&["xvcd-ng", "-c", "1"]).is_err());
}

#[test]
fn ng_hex_field() {
    assert_eq!(parse_hex_u16("0x0403"), Ok(0x0403));
    assert!(parse_hex_u16("zz").is_err());
}
