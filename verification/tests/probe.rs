use brtt::cli::ProbeInfo;
use brtt::probe::{
    automatic_selection, check_probe, chosen_probe, ensure_supported_target, list_probes,
    probe_label, select, selection_prompt, session_error, ProbeEntry, Selection,
};

#[test]
fn probe_handler_selection_defaults_only_when_single_probe_exists() {
    assert_eq!(automatic_selection(1, None).unwrap(), Some(0));
    assert_eq!(automatic_selection(2, None).unwrap(), None);
}

#[test]
fn probe_handler_explicit_probe_zero_is_not_treated_as_missing() {
    assert_eq!(
        automatic_selection(2, Some(&ProbeInfo::Number(0))).unwrap(),
        Some(0)
    );
}

#[test]
fn listing_is_not_a_selection() {
    assert_eq!(
        automatic_selection(1, Some(&ProbeInfo::List)).unwrap_err(),
        "probe list must be handled before selecting a probe"
    );
    assert!(matches!(select(2, None, true), Ok(Selection::Ask)));
    assert!(matches!(select(1, None, false), Ok(Selection::Chosen(0))));
    assert!(select(2, None, false).unwrap_err().starts_with("Multiple debug probes found;"));
    assert!(select(2, Some(&ProbeInfo::List), true).is_err());
}

#[test]
fn chosen_probes_are_trimmed_and_bounded() {
    assert_eq!(chosen_probe(" 1\n", 2), Some(1));
    assert_eq!(chosen_probe("+1\n", 2), Some(1));
    assert_eq!(chosen_probe("2\n", 2), None);
    assert_eq!(chosen_probe("\n", 2), None);
    assert_eq!(chosen_probe("-0", 2), None);
    assert_eq!(selection_prompt(3), "Select probe [0-2]: ");
}

#[test]
fn probes_are_checked_before_they_are_opened() {
    assert_eq!(check_probe(0, 1), Ok(()));
    assert_eq!(check_probe(4, 2).unwrap_err(), "Probe 4 does not exist.");
    assert!(check_probe(0, 0).unwrap_err().starts_with("No debug probes available."));
    assert_eq!(ensure_supported_target(false), Ok(()));
    assert!(ensure_supported_target(true).unwrap_err().starts_with("64-bit targets"));
}

#[test]
fn session_errors_hint_at_the_chip_option() {
    assert_eq!(
        session_error("no chip", false, true),
        "Error creating debug session: no chip\nHint: Use '--chip' to specify the target chip type manually"
    );
    assert_eq!(session_error("no chip", true, true), "Error creating debug session: no chip");
    assert_eq!(session_error("x", false, false), "Error creating debug session: x");
}

#[test]
fn probe_lists_show_what_is_known() {
    let first = ProbeEntry {
        identifier: "J-Link".to_string(),
        probe_type: "J-Link".to_string(),
        serial_number: Some("123".to_string()),
        vendor_id: 0x1366,
        product_id: 0x15,
        interface: Some(2),
    };
    assert_eq!(probe_label(&first), "J-Link 123");
    let second = ProbeEntry {
        identifier: "CMSIS".to_string(),
        probe_type: "CMSIS-DAP".to_string(),
        serial_number: None,
        vendor_id: 0xdead,
        product_id: 0,
        interface: None,
    };
    assert_eq!(probe_label(&second), "CMSIS (no serial number)");
    let mut output = Vec::new();
    list_probes(&mut output, &[first, second]);
    assert_eq!(
        String::from_utf8(output).unwrap(),
        "Available probes:\n  [0] J-Link\n      Type: J-Link\n      Serial: 123\n      USB: 1366:0015\n      Interface: 2\n\n  [1] CMSIS\n      Type: CMSIS-DAP\n      Serial: (none)\n      USB: dead:0000\n"
    );
}
