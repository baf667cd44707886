use brtt::filter::{
    filter_level, level_enabled, level_name, parse_filter_spec, parse_filter_spec_value, Filter,
    Level,
};

fn levels(filters: &[Filter]) -> Vec<(&str, Level)> {
    filters
        .iter()
        .map(|filter| (&*filter.module, filter.level))
        .collect()
}

#[test]
fn filter_uses_longest_module_prefix() {
    let filters = parse_filter_spec("warn,app=info,app::net=debug").unwrap();
    assert_eq!(filter_level(Some("app::net::tcp"), &filters), Level::Debug);
    assert_eq!(filter_level(Some("app::ui"), &filters), Level::Info);
    assert_eq!(filter_level(Some("other"), &filters), Level::Warn);
}

#[test]
fn level_enabled_uses_an_inclusive_minimum() {
    assert!(!level_enabled(Level::Debug, Level::Info));
    assert!(level_enabled(Level::Info, Level::Info));
    assert!(level_enabled(Level::Error, Level::Warn));
}

#[test]
fn levels_are_ordered_and_named() {
    let all = [Level::Trace, Level::Debug, Level::Info, Level::Warn, Level::Error];
    for (i, first) in all.iter().enumerate() {
        for (j, second) in all.iter().enumerate() {
            assert_eq!(level_enabled(*first, *second), i >= j);
        }
    }
    let names: Vec<&str> = all.iter().map(|level| level_name(*level)).collect();
    assert_eq!(names, ["trace", "debug", "info", "warn", "error"]);
}

#[test]
fn filter_defaults_to_trace_without_a_matching_rule() {
    let filters = parse_filter_spec("app=warn").unwrap();

    assert_eq!(filter_level(Some("other"), &filters), Level::Trace);
    assert_eq!(filter_level(None, &filters), Level::Trace);
}

#[test]
fn filter_parser_accepts_aliases_and_rejects_invalid_specs() {
    assert_eq!(
        levels(&parse_filter_spec("warning,app=DEBUG").unwrap()),
        vec![("", Level::Warn), ("app", Level::Debug)]
    );
    assert!(parse_filter_spec("").is_err());
    assert!(parse_filter_spec("app=unknown").is_err());
    assert!(parse_filter_spec("app=warn,app=info").is_ok());
}

#[test]
fn filter_parser_trims_whitespace_around_entries() {
    let filters = parse_filter_spec("warn, app=debug").unwrap();

    assert_eq!(levels(&filters), vec![("", Level::Warn), ("app", Level::Debug)]);
    assert!(parse_filter_spec("app net=debug").is_err());
}

#[test]
fn filter_matches_module_boundaries_only() {
    let filters = parse_filter_spec("app=info").unwrap();

    assert_eq!(filter_level(Some("app"), &filters), Level::Info);
    assert_eq!(filter_level(Some("app::net"), &filters), Level::Info);
    assert_eq!(filter_level(Some("application"), &filters), Level::Trace);
}

#[test]
fn the_last_of_equal_filters_decides() {
    let filters = parse_filter_spec("app=warn,app=info,error,trace").unwrap();

    assert_eq!(filter_level(Some("app"), &filters), Level::Info);
    assert_eq!(filter_level(Some("other"), &filters), Level::Trace);
}

#[test]
fn filter_errors_say_what_is_wrong() {
    assert_eq!(parse_filter_spec(" , ,").unwrap_err(), "defmt filter cannot be empty");
    assert_eq!(
        parse_filter_spec("warn,app= loud ").unwrap_err(),
        "invalid defmt level 'loud', expected trace, debug, info, warn, or error"
    );
    assert_eq!(
        parse_filter_spec_value("app\u{2003}net=debug").unwrap_err(),
        "invalid defmt filter module 'app\u{2003}net': whitespace is not allowed"
    );
    assert_eq!(levels(&parse_filter_spec("\u{2003}a = info\u{2003}").unwrap()), vec![("a", Level::Info)]);
}

#[test]
fn filters_know_white_space_beyond_ascii() {
    let filters = parse_filter_spec("\u{3000}app=warn\u{a0},\u{2003}info\u{85}").unwrap();
    assert_eq!(levels(&filters), vec![("app", Level::Warn), ("", Level::Info)]);
    for character in ['\u{9}', '\u{b}', '\u{1680}', '\u{2000}', '\u{200a}', '\u{2028}', '\u{205f}'] {
        assert!(parse_filter_spec(&format!("a{character}b=warn")).is_err());
    }
    for character in ['\u{8}', '\u{e}', '\u{180e}', '\u{200b}', '\u{feff}'] {
        assert!(parse_filter_spec(&format!("a{character}b=warn")).is_ok());
    }
}
