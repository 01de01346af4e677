use xvcd::cli::{parse_hex_u16, BackendMode, CliArgs, CliError};

#[test]
fn test_cli_default_argument_fallback() {
    let args = CliArgs::try_parse_from(&["mini-xvcd"]);
    assert!(args.is_ok());

    let config = args.unwrap();
    assert_eq!(config.port, 2542);
    assert_eq!(config.vid, 0x0403);
    assert_eq!(config.pid, 0x6010);
    assert_eq!(config.mode, BackendMode::Bitbang);
    assert_eq!(config.channel, 0);
}

#[test]
fn test_cli_custom_hex_and_port_parsing_long() {
    let args = CliArgs::try_parse_from(&[
        "mini-xvcd", "--port", "3000", "--vid", "0xabcd", "--pid", "1234", "--mode", "mpsse", "--channel", "1",
    ]);
    assert!(args.is_ok());

    let config = args.unwrap();
    assert_eq!(config.port, 3000);
    assert_eq!(config.vid, 0xabcd);
    assert_eq!(config.pid, 0x1234);
    assert_eq!(config.mode, BackendMode::Mpsse);
    assert_eq!(config.channel, 1);
}

#[test]
fn test_cli_custom_hex_and_port_parsing_long_hex() {
    let args = CliArgs::try_parse_from(&[
        "mini-xvcd", "--port", "3000", "--vid", "0xabcd", "--pid", "0x1234", "--mode", "mpsse", "--channel", "2",
    ]);
    assert!(args.is_ok());

    let config = args.unwrap();
    assert_eq!(config.port, 3000);
    assert_eq!(config.vid, 0xabcd);
    assert_eq!(config.pid, 0x1234);
    assert_eq!(config.mode, BackendMode::Mpsse);
    assert_eq!(config.channel, 2);
}

#[test]
fn test_cli_custom_hex_and_port_parsing_short() {
    let args = CliArgs::try_parse_from(&[
        "mini-xvcd", "-P", "3000", "-v", "0xabcd", "-p", "1234", "-m", "mpsse", "-c", "1",
    ]);
    assert!(args.is_ok());

    let config = args.unwrap();
    assert_eq!(config.port, 3000);
    assert_eq!(config.vid, 0xabcd);
    assert_eq!(config.pid, 0x1234);
    assert_eq!(config.mode, BackendMode::Mpsse);
    assert_eq!(config.channel, 1);
}

#[test]
fn test_cli_hex_parsing_variations() {
    let args_raw = CliArgs::try_parse_from(&["mini-xvcd", "--vid", "0403", "--pid", "6011"]);
    let args_prefix = CliArgs::try_parse_from(&["mini-xvcd", "--vid", "0x0403", "--pid", "0x6011"]);

    assert!(args_raw.is_ok());
    assert!(args_prefix.is_ok());

    assert_eq!(args_raw.unwrap().vid, 0x0403);
    assert_eq!(args_prefix.unwrap().vid, 0x0403);
}

#[test]
fn test_cli_short_flags_combination() {
    let args = CliArgs::try_parse_from(&["mini-xvcd", "-P", "9000", "-v", "0403", "-p", "6010", "-m", "bitbang", "-c", "1"]);
    assert!(args.is_ok());

    let config = args.unwrap();
    assert_eq!(config.port, 9000);
    assert_eq!(config.mode, BackendMode::Bitbang);
    assert_eq!(config.channel, 1);
}

#[test]
fn test_cli_invalid_hex_rejection() {
    let args = CliArgs::try_parse_from(&["mini-xvcd", "--vid", "not_a_hex_value"]);
    assert!(args.is_err());

    let err_msg = args.unwrap_err().to_string();
    assert!(err_msg.contains("Invalid hex numeric value"));
}

#[test]
fn test_cli_invalid_port_rejection() {
    let args = CliArgs::try_parse_from(&["mini-xvcd", "--port", "70000"]); // Port value out of u16 range
    assert!(args.is_err());
}

#[test]
fn test_cli_invalid_mode_rejection() {
    let args = CliArgs::try_parse_from(&["mini-xvcd", "--mode", "unknown_mode"]);
    assert!(args.is_err());
}

#[test]
fn cli_port_out_of_range_message() {
    let err = CliArgs::try_parse_from(&["mini-xvcd", "--port", "70000"]).unwrap_err();
    assert_eq!(
        err.to_string(),
        "error: invalid value '70000' for '--port <PORT>': 70000 is not in 0..=65535"
    );
}

#[test]
fn cli_equals_form_and_missing_value() {
    let config = CliArgs::try_parse_from(&["mini-xvcd", "--port=4000", "--channel=3"]).unwrap();
    assert_eq!(config.port, 4000);
    assert_eq!(config.channel, 3);

    let err = CliArgs::try_parse_from(&["mini-xvcd", "--port"]).unwrap_err();
    assert!(matches!(err, CliError::MissingValue(_)));
    assert_eq!(err.to_string(), "error: a value is required for '--port <PORT>' but none was supplied");

    let err = CliArgs::try_parse_from(&["mini-xvcd", "--port", "-c", "1"]).unwrap_err();
    assert!(matches!(err, CliError::MissingValue(_)));
}

#[test]
fn cli_repeated_unknown_help_version() {
    let err = CliArgs::try_parse_from(&["mini-xvcd", "-P", "1", "--port", "2"]).unwrap_err();
    assert_eq!(err.to_string(), "error: the argument '--port <PORT>' cannot be used multiple times");

    let err = CliArgs::try_parse_from(&["mini-xvcd", "--bogus"]).unwrap_err();
    assert_eq!(err.to_string(), "error: unexpected argument '--bogus' found");

    assert!(matches!(CliArgs::try_parse_from(&["mini-xvcd", "--help"]), Err(CliError::DisplayHelp)));
    assert!(matches!(CliArgs::try_parse_from(&["mini-xvcd", "-V"]), Err(CliError::DisplayVersion)));
}

#[test]
fn cli_channel_range() {
    assert!(CliArgs::try_parse_from(&["mini-xvcd", "-c", "255"]).is_ok());
    let err = CliArgs::try_parse_from(&["mini-xvcd", "-c", "256"]).unwrap_err();
    assert_eq!(
        err.to_string(),
        "error: invalid value '256' for '--channel <CHANNEL>': 256 is not in 0..=255"
    );
}

#[test]
fn hex_field_values_and_errors() {
    assert_eq!(parse_hex_u16("ffff"), Ok(0xffff));
    assert_eq!(parse_hex_u16("0xFfFf"), Ok(0xffff));
    assert_eq!(parse_hex_u16("+10"), Ok(0x10));
    assert_eq!(parse_hex_u16("0000000000001"), Ok(1));
    assert_eq!(
        parse_hex_u16("10000"),
        Err("Invalid hex numeric value '10000': number too large to fit in target type".to_string())
    );
    assert_eq!(
        parse_hex_u16(""),
        Err("Invalid hex numeric value '': cannot parse integer from empty string".to_string())
    );
    assert_eq!(
        parse_hex_u16("0x"),
        Err("Invalid hex numeric value '0x': cannot parse integer from empty string".to_string())
    );
    assert_eq!(
        parse_hex_u16("12g"),
        Err("Invalid hex numeric value '12g': invalid digit found in string".to_string())
    );
    assert_eq!(
        parse_hex_u16("-1"),
        Err("Invalid hex numeric value '-1': invalid digit found in string".to_string())
    );
}

#[test]
fn hex_field_reads_the_same_with_and_without_prefix() {
    for s in ["0", "1", "403", "6010", "abcd", "FFFF"] {
        let prefixed = format!("0x{}", s);
        assert_eq!(parse_hex_u16(s), parse_hex_u16(&prefixed));
    }
}

#[test]
fn short_options_take_attached_values() {
    let config = CliArgs::try_parse_from(&["mini-xvcd", "-P3000", "-v=0x0403", "-p6014", "-mmpsse", "-c=1"]).unwrap();
    assert_eq!(config.port, 3000);
    assert_eq!(config.vid, 0x0403);
    assert_eq!(config.pid, 0x6014);
    assert_eq!(config.mode, BackendMode::Mpsse);
    assert_eq!(config.channel, 1);

    let config = CliArgs::try_parse_from(&["mini-xvcd", "-P=3000"]).unwrap();
    assert_eq!(config.port, 3000);
}

#[test]
fn short_clusters_that_are_not_values() {
    assert!(matches!(CliArgs::try_parse_from(&["mini-xvcd", "-hP"]), Err(CliError::DisplayHelp)));
    assert!(matches!(CliArgs::try_parse_from(&["mini-xvcd", "-Vx"]), Err(CliError::DisplayVersion)));
    match CliArgs::try_parse_from(&["mini-xvcd", "-x3000"]) {
        Err(CliError::UnexpectedArgument(a)) => assert_eq!(a, "-x"),
        _ => panic!("unexpected argument expected"),
    }
    assert!(matches!(
        CliArgs::try_parse_from(&["mini-xvcd", "-P3000", "--port", "1"]),
        Err(CliError::Repeated(_))
    ));
    assert!(matches!(
        CliArgs::try_parse_from(&["mini-xvcd", "-Pabc"]),
        Err(CliError::InvalidValue { .. })
    ));
}

#[test]
fn double_dash_ends_the_options() {
    let config = CliArgs::try_parse_from(&["mini-xvcd", "-P", "3000", "--"]).unwrap();
    assert_eq!(config.port, 3000);
    match CliArgs::try_parse_from(&["mini-xvcd", "--", "--help"]) {
        Err(CliError::UnexpectedArgument(a)) => assert_eq!(a, "--help"),
        _ => panic!("unexpected argument expected"),
    }
}

#[test]
fn decimal_values_read_as_signed_then_range_checked() {
    let config = CliArgs::try_parse_from(&["mini-xvcd", "--port=-0", "--channel=-0"]).unwrap();
    assert_eq!(config.port, 0);
    assert_eq!(config.channel, 0);
    let config = CliArgs::try_parse_from(&["mini-xvcd", "--port", "+0080"]).unwrap();
    assert_eq!(config.port, 80);

    let err = CliArgs::try_parse_from(&["mini-xvcd", "--port=-5"]).unwrap_err();
    assert_eq!(err.to_string(), "error: invalid value '-5' for '--port <PORT>': -5 is not in 0..=65535");
    let err = CliArgs::try_parse_from(&["mini-xvcd", "--channel", "0300"]).unwrap_err();
    assert_eq!(err.to_string(), "error: invalid value '0300' for '--channel <CHANNEL>': 300 is not in 0..=255");
    let err = CliArgs::try_parse_from(&["mini-xvcd", "-P=-99999999999999999999"]).unwrap_err();
    assert_eq!(
        err.to_string(),
        "error: invalid value '-99999999999999999999' for '--port <PORT>': number too small to fit in target type"
    );
    let err = CliArgs::try_parse_from(&["mini-xvcd", "--port=-+1"]).unwrap_err();
    assert_eq!(
        err.to_string(),
        "error: invalid value '-+1' for '--port <PORT>': invalid digit found in string"
    );
}
