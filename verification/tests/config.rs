use cidr_compress::config::{get_config, usage, Config, ConfigError, ConfigProtocol, Flags};

fn args(list: &[&str]) -> Vec<String> {
    list.iter().map(|s| s.to_string()).collect()
}

#[test]
fn config_defaults_to_compress_any() {
    let config = get_config(&args(&[])).ok().unwrap();
    assert_eq!(
        config,
        Config { invert: false, complete: false, aggregate: false, protocol: ConfigProtocol::Any }
    );
}

#[test]
fn config_reads_short_and_long_options() {
    let config = get_config(&args(&["-4", "--invert", "-c"])).ok().unwrap();
    assert_eq!(
        config,
        Config { invert: true, complete: true, aggregate: false, protocol: ConfigProtocol::IPv4 }
    );
    let config = get_config(&args(&["--ipv6", "-a"])).ok().unwrap();
    assert_eq!(
        config,
        Config { invert: false, complete: false, aggregate: true, protocol: ConfigProtocol::IPv6 }
    );
}

#[test]
fn config_help_comes_first() {
    let failure = get_config(&args(&["-h", "-c", "-a"])).err().unwrap();
    assert_eq!(failure.kind, ConfigError::Help);
    assert_eq!(failure.reason, "");
}

#[test]
fn config_refuses_free_arguments() {
    let failure = get_config(&args(&["-4", "input.txt"])).err().unwrap();
    assert_eq!(failure.kind, ConfigError::FreeArguments);
}

#[test]
fn config_refuses_two_renderings() {
    let failure = get_config(&args(&["-c", "-a", "-4", "-6"])).err().unwrap();
    assert_eq!(failure.kind, ConfigError::OperationConflict);
    assert_eq!(failure.reason, "Error: Can either show aggregated or complete list");
}

#[test]
fn config_refuses_two_protocols() {
    let failure = get_config(&args(&["--ipv4", "-6"])).err().unwrap();
    assert_eq!(failure.kind, ConfigError::ProtocolConflict);
    assert_eq!(failure.reason, "Error: Need at most one of --ipv4/--ipv6.");
}

#[test]
fn config_reports_unknown_option() {
    let failure = get_config(&args(&["-x"])).err().unwrap();
    assert_eq!(failure.kind, ConfigError::Syntax);
    assert_eq!(failure.reason, "Unrecognized option: 'x'");
}

#[test]
fn config_reports_repeated_option() {
    let failure = get_config(&args(&["-i", "--invert"])).err().unwrap();
    assert_eq!(failure.kind, ConfigError::Syntax);
    assert_eq!(failure.reason, "Option 'invert' given more than once");
}

#[test]
fn config_from_flags_decides_in_order() {
    let none = Flags {
        help: false,
        free: false,
        ipv4: false,
        ipv6: false,
        complete: false,
        aggregate: false,
        invert: false,
    };
    assert_eq!(
        Config::from_flags(&Flags { help: true, free: true, ..none }),
        Err(ConfigError::Help)
    );
    assert_eq!(
        Config::from_flags(&Flags { free: true, complete: true, aggregate: true, ..none }),
        Err(ConfigError::FreeArguments)
    );
    assert_eq!(
        Config::from_flags(&Flags { ipv6: true, invert: true, ..none }),
        Ok(Config { invert: true, complete: false, aggregate: false, protocol: ConfigProtocol::IPv6 })
    );
}

#[test]
fn usage_lists_every_option() {
    let text = usage("Usage: prog [-i] [-a|-c] [-4|-6]");
    assert!(text.starts_with("Usage: prog [-i] [-a|-c] [-4|-6]\n\nOptions:\n"));
    for name in ["--ipv4", "--ipv6", "--complete", "--aggregate", "--invert", "--help"] {
        assert!(text.contains(name));
    }
}

#[test]
fn usage_is_the_brief_line_and_a_row_for_each_option() {
    assert_eq!(
        usage("Usage: prog [-i] [-a|-c] [-4|-6]"),
        [
            "Usage: prog [-i] [-a|-c] [-4|-6]\n",
            "\n",
            "Options:\n",
            "    -4, --ipv4          IPv4 mode\n",
            "    -6, --ipv6          IPv6 mode\n",
            "    -c, --complete      Complete covering list of ranges\n",
            "    -a, --aggregate     Aggregate including ranges\n",
            "    -i, --invert        Invert input list\n",
            "    -h, --help          print this help menu\n",
        ]
        .concat()
    );
    assert!(usage("").starts_with("\n\nOptions:\n    -4, --ipv4"));
}
