use brtt::cli::{ChannelEncoding, ChannelSpec, ColorMode, LogFormat};
use brtt::decode::DecodedFrame;
use brtt::down::{DownBuffer, MAX_DOWN_BUFFER_BYTES};
use brtt::filter::{Filter, Level};
use brtt::output::OutputContext;
use brtt::render::{
    channel_color, finish_renderer_before_reset, render_bytes, render_terminal_chunk,
    ForegroundLine, SessionState,
};
use brtt::scan::ScanRegion;
use brtt::session::{
    channel_by_number, clear_screen, ensure_rtt_compatible_target, list_all_channels, on_or_off,
    uses_color, write_config, write_help, write_session_banner, write_toggle_status, ChannelInfo,
    SessionConfig,
};
use brtt::stream::{SessionStream, MAX_SESSION_RAW_LINE_BYTES};

const NOW: i64 = 1_700_000_000_000_000_000;

fn test_channel(number: usize) -> ChannelInfo {
    ChannelInfo { number, name: None, buffer_size: 0 }
}

fn context<'t>(state: SessionState, filters: Option<&'t Vec<Filter>>) -> OutputContext<'t> {
    OutputContext { state, logger: None, include_channel: false, filters, output: Vec::new() }
}

#[test]
fn channel_lookup_uses_rtt_number_not_slice_index() {
    let channels = [test_channel(1), test_channel(3)];

    assert_eq!(channel_by_number(&channels, 1).unwrap().number, 1);
    assert_eq!(channel_by_number(&channels, 3).unwrap().number, 3);
    assert!(channel_by_number(&channels, 0).is_none());
    assert!(channel_by_number(&channels, 2).is_none());
}

#[test]
fn help_lists_current_commands() {
    let mut output = Vec::new();

    write_help(&mut output);

    let output = String::from_utf8(output).unwrap();
    assert!(output.contains("q  Quit"));
    assert!(output.contains("?  Show this help"));
    assert!(output.contains("c  Show configuration"));
    assert!(output.contains("l  Clear screen"));
    assert!(output.contains("t  Toggle timestamps"));
    assert!(output.contains("e  Toggle local echo"));
    assert!(output.contains("R  Reset target"));
    assert!(output.contains("Ctrl-C is sent to the target"));
    assert!(output.contains("Not implemented from tio"));
}

#[test]
fn session_banner_shows_escape_help() {
    let mut output = Vec::new();

    write_session_banner(&mut output, "1.2.3");

    let output = String::from_utf8(output).unwrap();
    assert!(output.contains("Press ctrl-t ? for help"));
    assert!(output.contains("Connected to target"));
    assert!(output.starts_with("brtt 1.2.3\r\n"));
}

#[test]
fn timestamps_are_added_once_per_line_across_partial_events() {
    let mut state = SessionState::new();
    state.timestamps = true;
    let timestamp = NOW + 123_000_000;
    let mut output = Vec::new();

    render_bytes(b"partial", timestamp, &mut state, &mut output);
    render_bytes(b" line\nnext", timestamp, &mut state, &mut output);

    let expected_timestamp = chrono::DateTime::from_timestamp_nanos(timestamp)
        .format("%Y-%m-%d %H:%M:%S%.3f")
        .to_string();
    let expected = format!("[{expected_timestamp}] partial line\r\n[{expected_timestamp}] next");
    assert_eq!(output, expected.as_bytes());
}

#[test]
fn timestamps_show_date_and_milliseconds() {
    let mut state = SessionState::new();
    state.timestamps = true;
    let mut output = Vec::new();

    render_bytes(b"x", 123_999_999, &mut state, &mut output);
    render_bytes(b"\ny", -1, &mut state, &mut output);

    assert_eq!(output, b"[1970-01-01 00:00:00.123] x\r\n[1969-12-31 23:59:59.999] y");
}

#[test]
fn timestamps_are_disabled_by_default() {
    let mut state = SessionState::new();
    let mut output = Vec::new();

    render_bytes(b"text\n", NOW, &mut state, &mut output);

    assert_eq!(output, b"text\r\n");
}

#[test]
fn redirected_terminal_output_buffers_fragments_until_a_complete_line() {
    let mut state = SessionState::new();
    state.interactive = false;
    let mut output = Vec::new();

    render_terminal_chunk(0, b"partial ", NOW, &mut state, &mut output);
    assert!(output.is_empty());

    render_terminal_chunk(0, b"line\n", NOW, &mut state, &mut output);

    assert_eq!(output, b"partial line\n");
}

#[test]
fn bare_carriage_return_overwrites_from_column_zero() {
    let mut state = SessionState::new();
    state.interactive = false;
    let mut output = Vec::new();

    render_terminal_chunk(0, b"abcdef\rxy\n", NOW, &mut state, &mut output);

    assert_eq!(output, b"xycdef\n");
}

#[test]
fn toggle_status_returns_cursor_to_column_zero() {
    let mut output = Vec::new();

    write_toggle_status(&mut output, "Timestamps", true);

    assert_eq!(output, b"\r\nTimestamps: on\r\n");
    assert_eq!(on_or_off(false), "off");
}

#[test]
fn carriage_return_newline_is_not_rendered_as_two_lines() {
    let mut state = SessionState::new();
    state.channel_labels = true;
    let mut output = Vec::new();

    render_terminal_chunk(0, b"first\r\nsecond\r\n", NOW, &mut state, &mut output);

    assert_eq!(output, b"[ch0] first\r\n[ch0] second\r\n");
}

#[test]
fn completed_line_does_not_restore_its_consumed_partial_prompt() {
    let mut state = SessionState::new();
    state.channel_labels = true;
    let mut output = Vec::new();

    render_terminal_chunk(0, b"> ", NOW, &mut state, &mut output);
    render_terminal_chunk(0, b"help\r\n", NOW, &mut state, &mut output);

    assert_eq!(output, b"[ch0] > \r\x1b[2K[ch0] > help\r\n");
}

#[test]
fn config_and_clear_screen_outputs_include_session_settings() {
    let config = SessionConfig {
        probe: "probe-id".to_string(),
        chip: "nRF52840_xxAA".to_string(),
        up_specs: vec![ChannelSpec { index: 2, mode: ChannelEncoding::Terminal }],
        down_channel: Some(1),
        poll_interval: 10,
        reset: false,
        timestamps: false,
        defmt: None,
        defmt_filters: None,
        color: ColorMode::Never,
        log: None,
        log_per_channel: false,
        log_format: LogFormat::Decoded,
        scan_region: ScanRegion::Exact(0x2000_0000),
        automatic_scan: false,
    };
    let state = SessionState::new();
    let mut output = Vec::new();

    write_config(&config, &state, &mut output);
    let config_output = String::from_utf8(output).unwrap();
    assert!(config_output.contains("Probe: probe-id"));
    assert!(config_output.contains("Chip: nRF52840_xxAA"));
    assert!(config_output.contains("Up channels: 2:terminal"));
    assert!(config_output.contains("Down channel: 1"));
    assert!(config_output.contains("Poll interval: 10 ms"));
    assert_eq!(
        config_output,
        "\r\nConfiguration:\r\n  Probe: probe-id\r\n  Chip: nRF52840_xxAA\r\n  Up channels: 2:terminal\r\n  Down channel: 1\r\n  Poll interval: 10 ms\r\n  Timestamps: off\r\n  Local echo: off\r\n"
    );

    let mut clear_output = Vec::new();
    clear_screen(&mut clear_output);
    assert!(clear_output.starts_with(b"\x1b[2J"));
    assert_eq!(clear_output, b"\x1b[2J\x1b[1;1H");
}

#[test]
fn terminal_chunks_are_rendered_with_channel_labels_in_read_order() {
    let mut output = Vec::new();
    let mut state = SessionState::new();
    state.channel_labels = true;

    render_terminal_chunk(2, b"log\n", NOW, &mut state, &mut output);
    render_terminal_chunk(0, b"shell", NOW, &mut state, &mut output);

    assert_eq!(output, b"[ch2] log\r\n[ch0] shell");
}

#[test]
fn multiple_channels_are_labeled_on_each_line() {
    let mut output = Vec::new();
    let mut state = SessionState::new();
    state.channel_labels = true;

    render_terminal_chunk(0, b"zero\none", NOW, &mut state, &mut output);
    render_terminal_chunk(1, b"one\n", NOW, &mut state, &mut output);

    assert_eq!(output, b"[ch0] zero\r\n[ch0] one\r\x1b[2K[ch1] one\r\n[ch0] one");
}

#[test]
fn channel_labels_use_stable_palette_colors() {
    assert_eq!(channel_color(0), "\x1b[36m");
    assert_eq!(channel_color(6), channel_color(0));

    let mut output = Vec::new();
    let mut state = SessionState::new();
    state.channel_labels = true;
    state.color = true;

    render_terminal_chunk(1, b"line\n", NOW, &mut state, &mut output);

    assert_eq!(output, b"\x1b[35m[ch1] \x1b[0mline\r\n");
}

#[test]
fn defmt_level_color_composes_after_channel_color() {
    let frame = DecodedFrame {
        message: "bad".to_string(),
        timestamp: None,
        level: Some(Level::Error),
        module: None,
    };
    let mut state = SessionState::new();
    state.channel_labels = true;
    state.color = true;
    let mut render = context(state, None);

    render.render_defmt_frame(1, &frame, NOW);

    assert_eq!(
        render.take_output(),
        b"\x1b[35m[ch1] \x1b[0m\x1b[31merror bad\r\n\x1b[0m"
    );
}

#[test]
fn filtered_defmt_frames_are_not_rendered_or_logged() {
    let frame = DecodedFrame {
        message: "quiet".to_string(),
        timestamp: None,
        level: Some(Level::Info),
        module: Some("app".to_string()),
    };
    let filters = vec![Filter { module: "".to_string(), level: Level::Warn }];
    let mut render = context(SessionState::new(), Some(&filters));

    render.render_defmt_frame(0, &frame, NOW);

    assert!(render.take_output().is_empty());
    assert_eq!(render.state.defmt_decode_warnings, 0);
}

#[test]
fn defmt_lines_carry_timestamp_level_and_number() {
    let frame = DecodedFrame {
        message: "hello".to_string(),
        timestamp: Some("0.5".to_string()),
        level: Some(Level::Info),
        module: None,
    };
    let mut state = SessionState::new();
    state.interactive = false;
    let mut render = context(state, None);

    render.render_defmt_frame(0, &frame, NOW);
    render.render_defmt_warning(0, "odd", NOW);
    render.render_defmt_warning(0, "odder", NOW);

    assert_eq!(
        render.take_output(),
        b"[0.5] info hello\n[defmt warning #1] odd\n[defmt warning #2] odder\n"
    );
}

#[test]
fn defmt_lines_go_above_an_unfinished_line() {
    let frame = DecodedFrame {
        message: "tick".to_string(),
        timestamp: None,
        level: None,
        module: None,
    };
    let mut render = context(SessionState::new(), None);

    render.render_terminal_event(0, b"> ls", NOW);
    render.render_defmt_frame(1, &frame, NOW);
    render.render_terminal_event(0, b" -l", NOW);

    assert_eq!(
        render.take_output(),
        b"> ls\r\x1b[2Ktick\r\n> ls\r\x1b[2K> ls -l"
    );
}

#[test]
fn reset_target_clears_renderer_state_and_queued_input() {
    let mut state = SessionState::new();
    state.line_start = false;
    state.last_channel = Some(1);
    state.foreground = Some(ForegroundLine { channel: 1, bytes: b"> ".to_vec() });
    state.streams.push((1, SessionStream::new()));

    state.reset_target();

    assert!(state.line_start);
    assert_eq!(state.last_channel, None);
    assert!(state.foreground.is_none());
    assert!(state.streams.is_empty());

    let mut down = DownBuffer::new();
    down.push(b"typed but unsent");
    down.clear();
    assert!(down.is_empty());
}

#[test]
fn down_buffer_caps_growth_and_drops_excess() {
    let mut down = DownBuffer::new();
    let chunk = vec![b'x'; MAX_DOWN_BUFFER_BYTES + 32];

    down.push(&chunk);

    assert_eq!(down.bytes.len(), MAX_DOWN_BUFFER_BYTES);
    assert_eq!(down.dropped, 32);
    assert_eq!(down.writable().len(), MAX_DOWN_BUFFER_BYTES);

    down.consume(16);
    assert_eq!(down.bytes.len(), MAX_DOWN_BUFFER_BYTES - 16);
}

#[test]
fn down_buffer_keeps_the_order_of_bytes() {
    let mut down = DownBuffer::new();
    down.push(b"abc");
    down.push(b"def");
    down.consume(2);
    assert_eq!(down.writable(), b"cdef");
    assert_eq!(down.len(), 4);
}

#[test]
fn terminal_lines_are_bounded_instead_of_growing_without_bound() {
    let mut state = SessionState::new();
    state.interactive = false;
    let mut output = Vec::new();
    let long = vec![b'a'; 16 * 1024 + 64];

    render_terminal_chunk(0, &long, NOW, &mut state, &mut output);
    render_terminal_chunk(0, b"\n", NOW, &mut state, &mut output);

    assert_eq!(output.len(), 4097);
}

#[test]
fn terminal_output_preserves_sgr_colors_without_cursor_rewrites() {
    let mut state = SessionState::new();
    let mut output = Vec::new();

    render_terminal_chunk(0, b"\x1b[31mred\x1b[0m\n", NOW, &mut state, &mut output);

    assert_eq!(output, b"\x1b[31mred\x1b[0m\r\n");
}

#[test]
fn wide_and_marked_characters_are_redrawn_whole() {
    let mut state = SessionState::new();
    state.interactive = false;
    let mut output = Vec::new();

    render_terminal_chunk(0, "界x\rab\n".as_bytes(), NOW, &mut state, &mut output);
    render_terminal_chunk(0, "e\u{301}f\x1b[1D!\n".as_bytes(), NOW, &mut state, &mut output);

    assert_eq!(output, "abx\ne\u{301}!\n".as_bytes());
}

#[test]
fn redirected_output_gets_unfinished_lines_before_a_reset() {
    let mut state = SessionState::new();
    state.interactive = false;
    let mut output = Vec::new();

    render_terminal_chunk(1, b"one", NOW, &mut state, &mut output);
    render_terminal_chunk(0, b"zero", NOW, &mut state, &mut output);
    render_terminal_chunk(2, b"done\n", NOW, &mut state, &mut output);
    finish_renderer_before_reset(NOW, &mut state, &mut output);

    assert_eq!(output, b"done\none\nzero\n");
}

#[test]
fn channel_lists_name_every_channel() {
    let up = [ChannelInfo { number: 0, name: Some("Terminal".to_string()), buffer_size: 1024 }];
    let mut output = Vec::new();

    list_all_channels(&mut output, &up, &[]);

    assert_eq!(
        output,
        b"Up channels:\n  0: Terminal (buffer size 1024)\nDown channels:\n  (none)\n"
    );
    let mut output = Vec::new();
    list_all_channels(&mut output, &[], &[test_channel(3)]);
    assert_eq!(
        output,
        b"Up channels:\n  (none)\nDown channels:\n  3: (no name) (buffer size 0)\n"
    );
}

#[test]
fn colors_follow_the_terminal_unless_told_otherwise() {
    assert!(uses_color(ColorMode::Always, false, true));
    assert!(!uses_color(ColorMode::Never, true, false));
    assert!(uses_color(ColorMode::Auto, true, false));
    assert!(!uses_color(ColorMode::Auto, true, true));
    assert!(!uses_color(ColorMode::Auto, false, false));
    assert!(ensure_rtt_compatible_target(true).is_err());
    assert!(ensure_rtt_compatible_target(false).is_ok());
}

#[test]
fn plain_lines_come_out_byte_for_byte() {
    let mut stream = SessionStream::new();
    let (lines, partial) = stream.consume(b"boot ok\r\nready\nuart:~$ ");
    assert_eq!(lines, vec![b"boot ok".to_vec(), b"ready".to_vec()]);
    assert_eq!(partial, b"uart:~$ ".to_vec());
    assert_eq!(stream.visible_line(), b"uart:~$ ".to_vec());
}

#[test]
fn overlong_lines_keep_no_more_than_their_limit() {
    let mut stream = SessionStream::new();
    stream.consume(&vec![b'x'; MAX_SESSION_RAW_LINE_BYTES + 10]);
    assert_eq!(stream.raw_line.len(), MAX_SESSION_RAW_LINE_BYTES);
    assert!(stream.raw_rewrite);
}

/// What a redirected screen gets of chunks of one channel.
fn redirected(chunks: &[&[u8]]) -> Vec<u8> {
    let mut state = SessionState::new();
    state.interactive = false;
    let mut output = Vec::new();
    for chunk in chunks {
        let before = output.len();
        render_terminal_chunk(0, chunk, NOW, &mut state, &mut output);
        assert!(output.len() == before || output.ends_with(b"\n"));
    }
    output
}

#[test]
fn redirected_output_is_the_same_however_it_is_cut() {
    let plain: &[u8] = b"boot\ttab\r\nold text\rnew\n\nlast \r\r\nrest";
    let colored: &[u8] = b"\x1b[31mred\x1b[0m\r\nold\r\x1b[2Knew\nabc\x1b[D\x1b[P\ntail";
    for text in [plain, colored] {
        let whole = redirected(&[text]);
        for cut in 0..=text.len() {
            assert_eq!(redirected(&[&text[..cut], &text[cut..]]), whole);
        }
    }
    assert_eq!(
        redirected(&[plain]),
        b"boot\ttab\nnew text\n\nlast \n"
    );
}

#[test]
fn redirected_output_may_be_cut_after_any_bytes() {
    let text: &[u8] = b"one\x1b[31m\r\nold\rnew\n\tend\nrest";
    let earlier: [&[u8]; 5] = [
        "grüße 界\n".as_bytes(),
        b"incomplete \xe2\x82",
        b"wrong \xff\xc3",
        b"half a sequence \x1b[3",
        b"\xf0\x9f\x98",
    ];
    for before in earlier {
        let whole = redirected(&[before, text]);
        for cut in 0..=text.len() {
            assert_eq!(redirected(&[before, &text[..cut], &text[cut..]]), whole);
        }
    }
}

#[test]
fn redirected_output_waits_for_a_line_feed_whatever_came() {
    for text in [&b"\x1b]0;title"[..], b"\xe2\x82", b"\x1b[2K\rtext\t", b"\x1bPq", "界".as_bytes()] {
        assert_eq!(redirected(&[text]), b"");
    }
}
