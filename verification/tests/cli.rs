use brtt::cli::{
    configured_up_specs, parse_scan_region, ChannelEncoding, ChannelSpec, ColorMode, LogFormat,
    Opts, ProbeInfo,
};
use brtt::filter::{parse_filter_spec_value, FilterSpec};
use brtt::scan::ScanRegion;
use clap::builder::{PossibleValuesParser, RangedU64ValueParser};
use clap::{Arg, ArgAction, Command};
use std::path::PathBuf;

fn channel(value: &str) -> Result<ChannelSpec, String> {
    value.parse()
}

fn probe(value: &str) -> Result<ProbeInfo, &'static str> {
    value.parse()
}

fn path(value: &str) -> Result<PathBuf, String> {
    Ok(PathBuf::from(value))
}

fn flag(name: &'static str) -> Arg {
    Arg::new(name).long(name).action(ArgAction::SetTrue)
}

fn command() -> Command {
    Command::new("brtt")
        .arg(Arg::new("probe").short('p').long("probe").value_parser(probe))
        .arg(Arg::new("chip").short('c').long("chip"))
        .arg(flag("list").short('l'))
        .arg(Arg::new("up").short('u').long("up").action(ArgAction::Append).value_parser(channel))
        .arg(
            Arg::new("down")
                .short('d')
                .long("down")
                .conflicts_with("no-down")
                .value_parser(RangedU64ValueParser::<u32>::new()),
        )
        .arg(flag("reset").short('r'))
        .arg(flag("timestamp").short('t'))
        .arg(
            Arg::new("poll-interval")
                .long("poll-interval")
                .default_value("10")
                .value_parser(RangedU64ValueParser::<u64>::new().range(1..)),
        )
        .arg(Arg::new("scan-region").long("scan-region").value_parser(parse_scan_region))
        .arg(Arg::new("elf").long("elf").value_name("PATH").value_parser(path))
        .arg(flag("debug-defmt-table").requires("elf"))
        .arg(Arg::new("defmt-filter").long("defmt-filter").value_parser(parse_filter_spec_value))
        .arg(
            Arg::new("color")
                .long("color")
                .default_value("auto")
                .value_parser(PossibleValuesParser::new(["auto", "always", "never"])),
        )
        .arg(Arg::new("log").short('L').long("log").value_name("PATH").value_parser(path))
        .arg(flag("log-per-channel").requires("log"))
        .arg(
            Arg::new("log-format")
                .long("log-format")
                .requires("log")
                .value_parser(PossibleValuesParser::new(["raw", "decoded"])),
        )
        .arg(flag("no-down"))
}

fn try_parse_from(args: &[&str]) -> Result<Opts, String> {
    let matches = command().try_get_matches_from(args).map_err(|error| error.to_string())?;
    Ok(Opts {
        probe: matches.get_one::<ProbeInfo>("probe").copied(),
        chip: matches.get_one::<String>("chip").cloned(),
        list: matches.get_flag("list"),
        up: matches.get_many::<ChannelSpec>("up").unwrap_or_default().copied().collect(),
        down: matches.get_one::<u32>("down").copied(),
        reset: matches.get_flag("reset"),
        timestamps: matches.get_flag("timestamp"),
        poll_interval: *matches.get_one::<u64>("poll-interval").unwrap(),
        scan_region: matches.get_one::<ScanRegion>("scan-region").cloned(),
        elf: matches.get_one::<PathBuf>("elf").cloned(),
        debug_defmt_table: matches.get_flag("debug-defmt-table"),
        defmt_filters: matches.get_one::<FilterSpec>("defmt-filter").cloned(),
        color: match matches.get_one::<String>("color").unwrap().as_str() {
            "always" => ColorMode::Always,
            "never" => ColorMode::Never,
            _ => ColorMode::Auto,
        },
        log: matches.get_one::<PathBuf>("log").cloned(),
        log_per_channel: matches.get_flag("log-per-channel"),
        log_format: matches.get_one::<String>("log-format").map(|format| match format.as_str() {
            "raw" => LogFormat::Raw,
            _ => LogFormat::Decoded,
        }),
        no_down: matches.get_flag("no-down"),
    })
}

#[test]
fn channel_spec_defaults_to_terminal() {
    assert_eq!(
        "7".parse::<ChannelSpec>(),
        Ok(ChannelSpec { index: 7, mode: ChannelEncoding::Terminal })
    );
}

#[test]
fn channel_spec_parses_terminal_and_defmt_modes() {
    assert_eq!(
        "1:terminal".parse::<ChannelSpec>(),
        Ok(ChannelSpec { index: 1, mode: ChannelEncoding::Terminal })
    );
    assert_eq!(
        "2:defmt".parse::<ChannelSpec>(),
        Ok(ChannelSpec { index: 2, mode: ChannelEncoding::Defmt })
    );
}

#[test]
fn channel_spec_rejects_invalid_values() {
    for value in ["", ":terminal", "1:", "1:terminal:x", "-1", "not-a-channel"] {
        assert!(value.parse::<ChannelSpec>().is_err(), "accepted {value:?}");
    }

    assert!("1:binary".parse::<ChannelSpec>().is_err());
    assert!("4294967296".parse::<ChannelSpec>().is_err());
}

#[test]
fn channel_spec_errors_say_what_is_wrong() {
    for (value, message) in [
        ("", "channel index cannot be empty"),
        ("1:", "invalid channel mode '', expected terminal or defmt"),
        ("1:terminal:x", "invalid channel specification '1:terminal:x', expected INDEX[:MODE]"),
        ("-1", "invalid channel index '-1', expected a u32"),
        ("4294967296", "invalid channel index '4294967296', expected a u32"),
        ("1:binary", "invalid channel mode 'binary', expected terminal or defmt"),
    ] {
        assert_eq!(value.parse::<ChannelSpec>().unwrap_err(), message);
    }
    assert_eq!("+3".parse::<ChannelSpec>().unwrap().index, 3);
    assert_eq!("defmt".parse::<ChannelEncoding>().unwrap().name(), "defmt");
    assert_eq!("terminal".parse::<ChannelEncoding>().unwrap().name(), "terminal");
}

#[test]
fn channel_spec_accepts_u32_max() {
    assert_eq!(
        "4294967295".parse::<ChannelSpec>(),
        Ok(ChannelSpec { index: u32::MAX, mode: ChannelEncoding::Terminal })
    );
}

#[test]
fn probe_numbers_and_the_list_are_read() {
    assert_eq!("list".parse::<ProbeInfo>(), Ok(ProbeInfo::List));
    assert_eq!("12".parse::<ProbeInfo>(), Ok(ProbeInfo::Number(12)));
    assert_eq!("x".parse::<ProbeInfo>(), Err("Invalid probe number."));
}

#[test]
fn opts_accept_repeated_channel_specs_in_order() {
    let opts = try_parse_from(&["brtt", "-u", "3:terminal", "--up", "4", "-d", "2"]).unwrap();

    assert_eq!(
        opts.up,
        vec![
            ChannelSpec { index: 3, mode: ChannelEncoding::Terminal },
            ChannelSpec { index: 4, mode: ChannelEncoding::Terminal },
        ]
    );
    assert_eq!(opts.down, Some(2));
}

#[test]
fn opts_leave_channels_empty_when_unspecified() {
    let opts = try_parse_from(&["brtt"]).unwrap();

    assert!(opts.up.is_empty());
    assert!(opts.down.is_none());
    assert!(opts.scan_region.is_none());
    assert!(!opts.timestamps);
    assert!(opts.probe.is_none());
}

#[test]
fn opts_preserve_explicit_scan_region() {
    let opts = try_parse_from(&["brtt", "--scan-region", "0x20000000"]).unwrap();

    assert!(matches!(opts.scan_region, Some(ScanRegion::Exact(0x20000000))));
}

#[test]
fn scan_region_rejects_empty_and_reversed_ranges() {
    assert!(parse_scan_region("0x2000..0x2000").is_err());
    assert!(parse_scan_region("0x3000..0x2000").is_err());
}

#[test]
fn scan_regions_are_read() {
    assert!(matches!(parse_scan_region("  "), Ok(ScanRegion::Ram)));
    assert!(matches!(parse_scan_region(" 4096 "), Ok(ScanRegion::Exact(4096))));
    match parse_scan_region("0X10..32").unwrap() {
        ScanRegion::Ranges(ranges) => assert_eq!(ranges, vec![(16, 32)]),
        other => panic!("unexpected region {other:?}"),
    }
    assert_eq!(
        parse_scan_region("0x3000..0x2000").unwrap_err(),
        "invalid scan range '0x3000..0x2000': start 0x3000 must be less than end 0x2000"
    );
    assert_eq!(parse_scan_region("1..2..3").unwrap_err(), "Invalid range: multiple '..'s");
    assert_eq!(
        parse_scan_region("1..").unwrap_err(),
        "".parse::<u64>().unwrap_err().to_string()
    );
    assert_eq!(
        parse_scan_region("0xzz").unwrap_err(),
        "z".parse::<u64>().unwrap_err().to_string()
    );
    assert_eq!(
        parse_scan_region("99999999999999999999").unwrap_err(),
        "99999999999999999999".parse::<u64>().unwrap_err().to_string()
    );
    assert_eq!(
        parse_scan_region("1...2").unwrap_err(),
        ".2".parse::<u64>().unwrap_err().to_string()
    );
}

#[test]
fn opts_accept_startup_timestamps() {
    let opts = try_parse_from(&["brtt", "--timestamp"]).unwrap();

    assert!(opts.timestamps);
}

#[test]
fn opts_preserve_explicit_probe_zero() {
    let opts = try_parse_from(&["brtt", "--probe", "0"]).unwrap();

    assert_eq!(opts.probe, Some(ProbeInfo::Number(0)));
}

fn validate_args(args: &[&str]) -> Result<(), String> {
    let opts = try_parse_from(args)?;
    let specs = configured_up_specs(&opts.up);
    opts.validate(&specs)
}

fn assert_error_contains(args: &[&str], expected: &str) {
    let error = validate_args(args).expect_err("arguments unexpectedly accepted");
    assert!(error.contains(expected), "{error:?} does not contain {expected:?}");
}

#[test]
fn validation_rejects_unsupported_channel_combinations() {
    assert_error_contains(&["brtt", "--up", "0", "--up", "0"], "specified more than once");
    assert_error_contains(&["brtt", "--poll-interval", "0"], "not in 1..");
    assert_error_contains(&["brtt", "--up", "1:defmt"], "--elf is required");
    assert_error_contains(
        &["brtt", "--defmt-filter", "warn"],
        "requires at least one up channel",
    );
    assert!(validate_args(&["brtt", "--elf", "firmware.elf"]).is_ok());
}

#[test]
fn validation_rejects_log_modifiers_without_a_log() {
    assert_error_contains(&["brtt", "--log-per-channel"], "--log <PATH>");
    assert_error_contains(&["brtt", "--log-format", "raw"], "--log <PATH>");
}

#[test]
fn validation_rejects_conflicting_exit_modes() {
    assert_error_contains(&["brtt", "--list", "--up", "0"], "--list cannot be combined");
    assert_error_contains(
        &["brtt", "--probe", "list", "--reset"],
        "--probe list cannot be combined",
    );
    assert_error_contains(&["brtt", "--debug-defmt-table"], "--elf <PATH>");
    assert_error_contains(
        &["brtt", "--debug-defmt-table", "--elf", "firmware.elf", "--list"],
        "cannot be combined",
    );
}

#[test]
fn list_accepts_target_discovery_options() {
    assert!(validate_args(&["brtt", "--list", "--chip", "nRF54L15"]).is_ok());
    assert!(validate_args(&["brtt", "--list", "--scan-region", "0x20002e68"]).is_ok());
    assert!(validate_args(&["brtt", "--list", "--elf", "firmware.elf"]).is_ok());
}

#[test]
fn validation_accepts_supported_defmt_and_logging_options() {
    assert!(validate_args(&[
        "brtt",
        "--up",
        "1:defmt",
        "--elf",
        "firmware.elf",
        "--defmt-filter",
        "warn",
        "--log",
        "capture.log",
        "--log-format",
        "decoded"
    ])
    .is_ok());
}

fn plain() -> Opts {
    try_parse_from(&["brtt"]).unwrap()
}

#[test]
fn validation_names_each_problem() {
    let terminal = [ChannelSpec { index: 0, mode: ChannelEncoding::Terminal }];
    let two = [terminal[0], ChannelSpec { index: 1, mode: ChannelEncoding::Terminal }];
    assert_eq!(plain().validate(&terminal), Ok(()));

    let mut opts = plain();
    opts.debug_defmt_table = true;
    assert_eq!(opts.validate(&terminal).unwrap_err(), "--debug-defmt-table requires --elf");
    opts.elf = Some(PathBuf::from("firmware.elf"));
    assert_eq!(opts.validate(&terminal), Ok(()));
    assert!(opts.needs_defmt_data(&terminal));
    opts.list = true;
    assert_eq!(
        opts.validate(&terminal).unwrap_err(),
        "--debug-defmt-table cannot be combined with --list or --probe list"
    );
    opts.list = false;
    opts.color = ColorMode::Never;
    assert_eq!(
        opts.validate(&terminal).unwrap_err(),
        "--debug-defmt-table cannot be combined with session options"
    );

    let mut opts = plain();
    opts.log_per_channel = true;
    assert_eq!(opts.validate(&terminal).unwrap_err(), "--log-per-channel requires --log");
    opts.log_per_channel = false;
    opts.log_format = Some(LogFormat::Raw);
    assert_eq!(opts.validate(&terminal).unwrap_err(), "--log-format requires --log");
    opts.log = Some(PathBuf::from("capture.log"));
    assert_eq!(opts.validate(&terminal), Ok(()));
    assert_eq!(
        opts.validate(&two).unwrap_err(),
        "--log-format raw with multiple up channels requires --log-per-channel"
    );

    let mut opts = plain();
    opts.list = true;
    opts.probe = Some(ProbeInfo::List);
    assert_eq!(
        opts.validate(&terminal).unwrap_err(),
        "--list cannot be combined with --probe list"
    );
    opts.probe = None;
    opts.poll_interval = 20;
    assert_eq!(
        opts.validate(&terminal).unwrap_err(),
        "--list cannot be combined with session options"
    );

    let defmt = [ChannelSpec { index: 0, mode: ChannelEncoding::Defmt }];
    let mut opts = plain();
    opts.elf = Some(PathBuf::from("firmware.elf"));
    opts.defmt_filters = Some(parse_filter_spec_value("app=warn,app=info").unwrap());
    assert_eq!(
        opts.validate(&defmt).unwrap_err(),
        "defmt filter prefix 'app' was specified more than once"
    );
    assert_eq!(
        opts.validate(&[two[1], two[0], two[1]]).unwrap_err(),
        "up channel 1 was specified more than once"
    );
    assert!(!plain().needs_defmt_data(&terminal));
    assert!(plain().needs_defmt_data(&defmt));
}

#[test]
fn configured_up_specs_default_to_channel_zero() {
    assert_eq!(
        configured_up_specs(&[]),
        vec![ChannelSpec { index: 0, mode: ChannelEncoding::Terminal }]
    );
}

#[test]
fn configured_up_specs_preserve_channel_order_and_modes() {
    let specs = vec![
        ChannelSpec { index: 2, mode: ChannelEncoding::Terminal },
        ChannelSpec { index: 5, mode: ChannelEncoding::Defmt },
    ];

    assert_eq!(configured_up_specs(&specs), specs);
}
