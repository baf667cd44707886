use brtt::cli::{ChannelEncoding, ChannelSpec, ColorMode, LogFormat};
use brtt::control::{
    first_action, Action, Phase, Session, Terminals, RTT_READ_BUDGET_PER_POLL,
};
use brtt::down::MAX_DOWN_BUFFER_BYTES;
use brtt::keys::{KeyCode, KeyEvent, KeyEventKind, KeyModifiers};
use brtt::scan::ScanRegion;
use brtt::session::{ChannelInfo, SessionConfig};
use std::path::PathBuf;

const NOW: i64 = 0;
const CONSOLE: Terminals = Terminals { stdout: true, stdin: true, no_color: true };
const PIPE: Terminals = Terminals { stdout: false, stdin: false, no_color: false };

fn config(channels: &[u32]) -> SessionConfig {
    SessionConfig {
        probe: "probe".to_string(),
        chip: "chip".to_string(),
        up_specs: channels
            .iter()
            .map(|index| ChannelSpec { index: *index, mode: ChannelEncoding::Terminal })
            .collect(),
        down_channel: Some(0),
        poll_interval: 10,
        reset: false,
        timestamps: false,
        defmt: None,
        defmt_filters: None,
        color: ColorMode::Auto,
        log: None,
        log_per_channel: false,
        log_format: LogFormat::Decoded,
        scan_region: ScanRegion::Ram,
        automatic_scan: true,
    }
}

fn channels(numbers: &[usize]) -> Vec<ChannelInfo> {
    numbers
        .iter()
        .map(|number| ChannelInfo { number: *number, name: None, buffer_size: 16 })
        .collect()
}

fn start(config: &SessionConfig, terminals: Terminals) -> Session<'_> {
    match Session::start(config, &channels(&[0, 1, 2]), &channels(&[0]), terminals, "1.0") {
        Ok(session) => session,
        Err(message) => panic!("no session: {message}"),
    }
}

fn key(code: KeyCode, control: bool) -> KeyEvent {
    KeyEvent {
        code,
        modifiers: KeyModifiers { shift: false, control, alt: false, other: false },
        kind: KeyEventKind::Press,
    }
}

/// Gives a command, as if it were typed.
fn command(session: &mut Session<'_>, character: char) {
    for key in [key(KeyCode::Char('t'), true), key(KeyCode::Char(character), false)] {
        session.phase = Phase::Input { had_data: false };
        session.key_event(key, NOW);
    }
}

#[test]
fn idle_sessions_ask_for_a_prompt_and_wait_for_keys() {
    let config = config(&[0]);
    let mut session = start(&config, CONSOLE);
    assert_eq!(
        session.render.take_output(),
        b"brtt 1.0\r\nPress ctrl-t ? for help\r\nConnected to target\r\n"
    );
    assert_eq!(session.next(), Action::Read { channel: 0, max: 4096 });
    session.read_done(b"", NOW);
    assert_eq!(session.next(), Action::PollInput { timeout: 10 });
    session.waited();
    assert_eq!(session.next(), Action::Send { channel: 0 });
    assert_eq!(session.down.writable(), b"\n");
    session.sent(1);
    assert_eq!(session.next(), Action::Read { channel: 0, max: 4096 });
    session.read_done(b"", NOW);
    session.next();
    session.waited();
    assert_eq!(session.next(), Action::Read { channel: 0, max: 4096 });
}

#[test]
fn sessions_without_a_keyboard_sleep() {
    let config = config(&[0]);
    let mut session = start(&config, PIPE);
    assert!(session.render.take_output().is_empty());
    session.next();
    session.read_done(b"", NOW);
    assert_eq!(session.next(), Action::Sleep { millis: 10 });
    session.waited();
    assert_eq!(session.next(), Action::Read { channel: 0, max: 4096 });
    session.read_done(b"line\n", NOW);
    assert_eq!(session.next(), Action::Read { channel: 0, max: 4096 });
    session.read_done(b"", NOW);
    assert_eq!(session.next(), Action::Flush);
    session.flushed();
    assert_eq!(session.next(), Action::Read { channel: 0, max: 4096 });
    assert_eq!(session.render.take_output(), b"line\n");
}

#[test]
fn channels_are_read_in_turns_until_none_gives_bytes() {
    let config = config(&[0, 2, 1]);
    let mut session = start(&config, PIPE);
    let mut order = Vec::new();
    for bytes in [&b"a\n"[..], b"", b"c\n", b"", b"", b""] {
        match session.next() {
            Action::Read { channel, .. } => order.push(channel),
            other => panic!("unexpected action {other:?}"),
        }
        session.read_done(bytes, NOW);
    }
    assert_eq!(order, [0, 2, 1, 0, 2, 1]);
    assert_eq!(session.next(), Action::Flush);
    assert_eq!(session.render.take_output(), b"[ch0] a\n[ch1] c\n");
}

#[test]
fn rounds_stop_when_their_budget_is_used_up() {
    let config = config(&[0, 1]);
    let mut session = start(&config, PIPE);
    let chunk = [b'x'; 4096];
    let mut total = 0;
    while let Action::Read { max, .. } = session.next() {
        let count = max.min(4000);
        total += count;
        session.read_done(&chunk[..count], NOW);
    }
    assert_eq!(total, RTT_READ_BUDGET_PER_POLL);
    assert_eq!(session.next(), Action::Flush);
}

#[test]
fn busy_sessions_do_not_wait_for_keys() {
    let config = config(&[0]);
    let mut session = start(&config, CONSOLE);
    session.next();
    session.read_done(b"x", NOW);
    session.next();
    session.read_done(b"", NOW);
    assert_eq!(session.next(), Action::Flush);
    session.flushed();
    assert_eq!(session.next(), Action::PollInput { timeout: 0 });
    session.down.push(&vec![0; MAX_DOWN_BUFFER_BYTES]);
    assert_eq!(session.next(), Action::Send { channel: 0 });
}

#[test]
fn typed_keys_wait_to_be_sent_and_are_echoed_on_demand() {
    let config = config(&[0]);
    let mut session = start(&config, CONSOLE);
    session.render.take_output();
    session.down.clear();
    session.key_event(key(KeyCode::Char('a'), false), NOW);
    assert_eq!(session.next(), Action::Send { channel: 0 });
    assert!(session.render.take_output().is_empty());
    command(&mut session, 'e');
    assert_eq!(session.render.take_output(), b"\r\nLocal echo: on\r\n");
    session.key_event(key(KeyCode::Enter, false), NOW);
    assert_eq!(session.render.take_output(), b"\r\n");
    assert_eq!(session.down.writable(), b"a\n");
    command(&mut session, 'e');
    assert_eq!(session.render.take_output(), b"\r\nLocal echo: off\r\n");
}

#[test]
fn commands_redraw_the_unfinished_line() {
    let config = config(&[0]);
    let mut session = start(&config, CONSOLE);
    session.next();
    session.read_done(b"> ls", NOW);
    session.render.take_output();
    command(&mut session, 't');
    assert!(session.render.state.timestamps);
    assert_eq!(
        session.render.take_output(),
        b"\r\x1b[2K\r\nTimestamps: on\r\n[1970-01-01 00:00:00.000] > ls"
    );
    command(&mut session, 't');
    assert_eq!(
        session.render.take_output(),
        b"\r\x1b[2K\r\nTimestamps: off\r\n> ls"
    );
    command(&mut session, 'l');
    assert_eq!(session.render.take_output(), b"\r\x1b[2K\x1b[2J\x1b[1;1H> ls");
    command(&mut session, '?');
    let help = String::from_utf8(session.render.take_output()).unwrap();
    assert!(help.starts_with("\r\x1b[2K\r\nCtrl-T commands:") && help.ends_with("options.\r\n> ls"));
    command(&mut session, 'c');
    let text = String::from_utf8(session.render.take_output()).unwrap();
    assert!(text.contains("Configuration:") && text.ends_with("Local echo: off\r\n> ls"));
}

#[test]
fn quitting_ends_the_session() {
    let mut config = config(&[0]);
    config.log = Some(PathBuf::from("capture.log"));
    let mut session = start(&config, CONSOLE);
    session.next();
    session.read_done(b"tail", NOW);
    command(&mut session, 'q');
    assert_eq!(session.next(), Action::End);
    session.finish(NOW);
    let mut logger = session.render.logger.take().unwrap();
    let writes = logger.take_writes();
    assert_eq!(writes.len(), 1);
    assert_eq!(writes[0].bytes, b"tail");
}

#[test]
fn resets_are_done_by_whoever_runs_the_session() {
    let config = config(&[0]);
    let mut session = start(&config, CONSOLE);
    session.next();
    session.read_done(b"> ls", NOW);
    session.render.take_output();
    session.down.push(b"typed");
    command(&mut session, 'R');
    assert_eq!(session.next(), Action::Reset);
    assert_eq!(session.render.take_output(), b"\r\x1b[2K");
    assert_eq!(
        session.target_reset(&channels(&[1]), &channels(&[0]), NOW).unwrap_err(),
        "Error: up channel 0 does not exist."
    );
    session.target_reset(&channels(&[0]), &channels(&[0]), NOW).unwrap();
    assert_eq!(session.render.take_output(), b"\r\nTarget reset.\r\n");
    assert!(session.down.is_empty());
    assert!(session.render.state.streams.is_empty());
    assert_eq!(session.next(), Action::Read { channel: 0, max: 4096 });
}

#[test]
fn restarts_of_the_target_are_noticed() {
    let mut config = config(&[0]);
    config.log = Some(PathBuf::from("capture.log"));
    let mut session = start(&config, CONSOLE);
    session.next();
    session.read_done(b"old", NOW);
    session.render.take_output();
    session.next();
    session.pointer_changed();
    assert_eq!(session.next(), Action::Reattach);
    assert_eq!(
        session.reattached(&channels(&[0]), &channels(&[]), NOW).unwrap_err(),
        "Error: down channel 0 does not exist."
    );
    session.reattached(&channels(&[0]), &channels(&[0]), NOW).unwrap();
    assert_eq!(
        session.render.take_output(),
        b"\r\x1b[2K\r\nRTT control block changed; reattached to target.\r\n"
    );
    assert_eq!(session.next(), Action::Read { channel: 0, max: 4096 });
    session.read_done(b"new\n", NOW);
    assert_eq!(session.render.take_output(), b"new\r\n");
    let writes = session.render.logger.take().unwrap().take_writes();
    let log: Vec<u8> = writes.into_iter().flat_map(|write| write.bytes).collect();
    assert_eq!(log, b"old\nnew\n");
}

#[test]
fn sessions_do_not_start_without_what_they_need() {
    let plain = config(&[0, 7]);
    assert_eq!(
        Session::start(&plain, &channels(&[0]), &channels(&[0]), PIPE, "1").err().unwrap(),
        "Error: up channel 7 does not exist."
    );
    let mut defmt = config(&[0]);
    defmt.up_specs[0].mode = ChannelEncoding::Defmt;
    assert_eq!(
        Session::start(&defmt, &channels(&[0]), &channels(&[0]), PIPE, "1").err().unwrap(),
        "missing defmt table for channel 0"
    );
    let mut raw = config(&[0, 1]);
    raw.log = Some(PathBuf::from("capture.log"));
    raw.log_format = LogFormat::Raw;
    assert_eq!(
        Session::start(&raw, &channels(&[0, 1]), &channels(&[0]), PIPE, "1").err().unwrap(),
        "--log-format raw with multiple up channels requires --log-per-channel"
    );
    raw.log_per_channel = true;
    raw.down_channel = None;
    assert!(Session::start(&raw, &channels(&[0, 1]), &[], CONSOLE, "1").is_ok());
}

#[test]
fn merged_logs_are_tagged_and_raw_logs_are_exact() {
    let mut merged = config(&[0, 1]);
    merged.log = Some(PathBuf::from("capture.log"));
    let mut session = start(&merged, PIPE);
    session.next();
    session.read_done(b"a\n", NOW);
    session.next();
    session.read_done(b"b\n", NOW);
    let writes = session.render.logger.take().unwrap().take_writes();
    let log: Vec<u8> = writes.into_iter().flat_map(|write| write.bytes).collect();
    assert_eq!(log, b"[ch0] a\n[ch1] b\n");

    let mut raw = config(&[0, 1]);
    raw.log = Some(PathBuf::from("capture.log"));
    raw.log_format = LogFormat::Raw;
    raw.log_per_channel = true;
    let mut session = start(&raw, PIPE);
    session.next();
    session.read_done(b"\x1b[1ma\r\n", NOW);
    let writes = session.render.logger.take().unwrap().take_writes();
    assert_eq!(writes.len(), 1);
    assert_eq!((writes[0].file, &writes[0].bytes[..]), (Some(0), &b"\x1b[1ma\r\n"[..]));
}

#[test]
fn targets_are_reset_first_where_the_user_wants_it() {
    let mut config = config(&[0]);
    assert_eq!(first_action(&config), None);
    config.reset = true;
    assert_eq!(first_action(&config), Some(Action::Reset));
}

#[test]
fn terminal_reads_need_no_decoder() {
    let config = config(&[0]);
    let mut session = start(&config, PIPE);
    session.next();
    assert!(session.terminal_read_done(b"hello\n", NOW));
    assert_eq!(session.render.take_output(), b"hello\n");
}

#[test]
fn switches_turned_twice_stand_as_before() {
    let config = config(&[0]);
    let mut session = start(&config, CONSOLE);
    session.render.take_output();
    command(&mut session, 't');
    assert!(session.render.state.timestamps);
    command(&mut session, 't');
    assert!(!session.render.state.timestamps);
    command(&mut session, 'e');
    assert!(session.render.state.local_echo);
    command(&mut session, 'e');
    assert!(!session.render.state.local_echo);
    assert_eq!(
        session.render.take_output(),
        b"\r\nTimestamps: on\r\n\r\nTimestamps: off\r\n\r\nLocal echo: on\r\n\r\nLocal echo: off\r\n"
    );
}
