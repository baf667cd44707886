use brtt::cli::LogFormat;
use brtt::logger::{channel_file_name, Logger};
use std::path::{Path, PathBuf};

const START: i64 = 1_700_000_000_000_000_000;

fn open(per_channel: bool, format: LogFormat, channel_count: usize) -> Logger {
    Logger::new(Some(PathBuf::from("capture.log")), per_channel, format, channel_count)
        .unwrap()
        .unwrap()
}

/// What has been written to a file.
fn content(logger: &mut Logger, file: Option<u32>) -> Vec<u8> {
    let mut bytes = Vec::new();
    for write in logger.take_writes() {
        if write.file == file {
            bytes.extend_from_slice(&write.bytes);
        }
    }
    bytes
}

fn timestamp_at(offset_ms: i64) -> (String, i64) {
    let wall = START + offset_ms * 1_000_000;
    let text = chrono::DateTime::from_timestamp_nanos(wall).format("%Y-%m-%d %H:%M:%S%.3f");
    (format!("[{text}] "), wall)
}

fn channel_path(path: &str, channel: u32) -> PathBuf {
    let path = Path::new(path);
    let name = channel_file_name(
        path.file_stem().map(|stem| stem.as_encoded_bytes()),
        path.extension().map(|extension| extension.as_encoded_bytes()),
        channel,
    );
    path.with_file_name(String::from_utf8(name).unwrap())
}

#[test]
fn channel_paths_insert_suffix_before_extension() {
    assert_eq!(channel_path("capture.log", 2), PathBuf::from("capture.ch2.log"));
    assert_eq!(channel_path("capture", 2), PathBuf::from("capture.ch2"));
    assert_eq!(channel_path("logs/capture", 2), PathBuf::from("logs/capture.ch2"));
}

#[test]
fn channel_paths_preserve_non_utf8_names() {
    assert_eq!(
        channel_file_name(Some(b"capture-\xff"), Some(b"log"), 2),
        b"capture-\xff.ch2.log"
    );
    assert_eq!(channel_file_name(None, None, 12), b"log.ch12");
}

#[test]
fn merged_decoded_logs_are_channel_tagged() {
    let mut logger = open(false, LogFormat::Decoded, 2);
    logger.write_text(0, b"one\n", true, START);
    logger.write_text(1, b"two\n", true, START);
    logger.flush(START);
    assert_eq!(content(&mut logger, None), b"[ch0] one\n[ch1] two\n");
}

#[test]
fn raw_merged_logs_reject_multiple_channels() {
    let path = Some(PathBuf::from("raw"));
    let result = Logger::new(path.clone(), false, LogFormat::Raw, 2);
    assert_eq!(
        result.err().unwrap(),
        "--log-format raw with multiple up channels requires --log-per-channel"
    );
    assert!(Logger::new(path.clone(), true, LogFormat::Raw, 2).unwrap().is_some());
    assert!(Logger::new(path.clone(), false, LogFormat::Raw, 1).unwrap().is_some());
    assert_eq!(Logger::new(path.clone(), false, LogFormat::Raw, 1).unwrap().unwrap().path, path.unwrap());
    assert!(Logger::new(None, false, LogFormat::Raw, 2).unwrap().is_none());
}

#[test]
fn merged_decoded_logs_keep_partial_channels_separate() {
    let mut logger = open(false, LogFormat::Decoded, 2);
    logger.write_text(0, b"foo", true, START);
    logger.write_text(1, b"bar\n", true, START);
    logger.write_text(0, b"\n", true, START);
    logger.flush(START);
    assert_eq!(content(&mut logger, None), b"[ch1] bar\n[ch0] foo\n");
}

#[test]
fn per_channel_raw_logs_preserve_bytes() {
    let mut logger = open(true, LogFormat::Raw, 2);
    logger.write_raw(1, &[0, 1, 0xff]);
    logger.flush(START);
    assert_eq!(content(&mut logger, Some(1)), &[0, 1, 0xff]);
}

#[test]
fn per_channel_decoded_logs_do_not_need_channel_tags() {
    let mut logger = open(true, LogFormat::Decoded, 2);
    logger.write_text(1, b"message\n", false, START);
    logger.flush(START);

    assert_eq!(content(&mut logger, Some(1)), b"message\n");
}

#[test]
fn decoded_logger_flushes_an_unfinished_line() {
    let mut logger = open(false, LogFormat::Decoded, 1);
    logger.write_text(0, b"unfinished", false, START);
    logger.flush(START);

    assert_eq!(content(&mut logger, None), b"unfinished");
}

/// What a log of one terminal channel holds when the session ends.
fn terminal_log(chunks: &[&[u8]]) -> Vec<u8> {
    let mut logger = open(false, LogFormat::Decoded, 1);
    for chunk in chunks {
        logger.write_terminal(0, chunk, false, START);
    }
    logger.flush(START);
    content(&mut logger, None)
}

#[test]
fn decoded_logger_collapses_terminal_redraws() {
    assert_eq!(
        terminal_log(&[b"\r\x1b[2K> help\r\x1b[2K> \r\x1b[2K> help\r\n"]),
        b"> help\n"
    );
}

#[test]
fn decoded_logger_handles_escape_sequences_split_between_reads() {
    assert_eq!(terminal_log(&[b"old\r\x1b[", b"2Knew\n"]), b"new\n");
}

#[test]
fn decoded_logger_keeps_echoed_commands() {
    assert_eq!(terminal_log(&[b"> pwd\r\n"]), b"> pwd\n");
}

#[test]
fn decoded_logger_overwrites_without_truncating_the_tail() {
    assert_eq!(terminal_log(&[b"abc\x1b[1GX\n"]), b"Xbc\n");
}

#[test]
fn decoded_logger_keeps_tail_when_tab_moves_cursor_backwards() {
    assert_eq!(terminal_log(&[b"abcdefghij\x1b[3G\t\n"]), b"abcdefghij\n");
}

#[test]
fn plain_decoded_text_does_not_interpret_terminal_controls() {
    let mut logger = open(false, LogFormat::Decoded, 1);
    logger.write_text(0, b"value: \x1b[2K\n", false, START);
    logger.flush(START);

    assert_eq!(content(&mut logger, None), b"value: \x1b[2K\n");
}

#[test]
fn terminal_logger_preserves_utf8_and_display_width() {
    assert_eq!(terminal_log(&["ż界\n".as_bytes()]), "ż界\n".as_bytes());
}

#[test]
fn terminal_logger_keeps_combining_marks_with_their_base_character() {
    assert_eq!(terminal_log(&["e\u{301}\n".as_bytes()]), "e\u{301}\n".as_bytes());
}

#[test]
fn terminal_logger_erases_the_cursor_cell_with_csi_one_k() {
    assert_eq!(terminal_log(&[b"abc\x1b[1K\n"]), b"\n");
}

#[test]
fn terminal_logger_deletes_characters_with_csi_p() {
    assert_eq!(terminal_log(&[b"abc\x1b[D\x1b[P\n"]), b"ab\n");
}

#[test]
fn terminal_logger_flush_preserves_parser_state() {
    let mut logger = open(false, LogFormat::Decoded, 1);
    logger.write_terminal(0, b"old\r\x1b[", false, START);
    logger.flush(START);
    logger.write_terminal(0, b"2Knew\n", false, START);
    logger.flush(START);

    assert_eq!(content(&mut logger, None), b"oldnew\n");
}

#[test]
fn logger_reset_clears_partial_terminal_state() {
    let mut logger = open(false, LogFormat::Decoded, 1);
    logger.write_terminal(0, b"boot", false, START);
    logger.reset(START);
    logger.write_terminal(0, b"next\n", false, START);
    logger.flush(START);

    assert_eq!(content(&mut logger, None), b"boot\nnext\n");
}

#[test]
fn reset_ends_pending_text_and_open_sequences() {
    let mut logger = open(false, LogFormat::Decoded, 2);
    logger.write_text(3, b"half", true, START);
    logger.write_terminal(4, b"old\x1b[", true, START);
    logger.reset(START);
    logger.write_text(3, b"whole\n", true, START);
    logger.write_terminal(4, b"2Knew\n", true, START);
    logger.flush(START);

    assert_eq!(
        content(&mut logger, None),
        b"[ch4] old\n[ch3] half\n[ch3] whole\n[ch4] 2Knew\n"
    );
}

#[test]
fn merged_decoded_logs_get_timestamps_before_channel_tags() {
    let mut logger = open(false, LogFormat::Decoded, 2);
    logger.set_timestamps(true);
    let (prefix, timestamp) = timestamp_at(250);
    logger.write_text(0, b"one\n", true, timestamp);
    logger.write_text(1, b"two\n", true, timestamp);
    logger.flush(START);

    let expected = format!("{prefix}[ch0] one\n{prefix}[ch1] two\n");
    assert_eq!(content(&mut logger, None), expected.as_bytes());
}

#[test]
fn per_channel_decoded_logs_get_timestamps() {
    let mut logger = open(true, LogFormat::Decoded, 2);
    logger.set_timestamps(true);
    let (prefix, timestamp) = timestamp_at(100);
    logger.write_text(1, b"message\n", false, timestamp);
    logger.flush(START);

    let expected = format!("{prefix}message\n");
    assert_eq!(content(&mut logger, Some(1)), expected.as_bytes());
}

#[test]
fn timestamp_toggle_applies_to_subsequent_lines_only() {
    let mut logger = open(false, LogFormat::Decoded, 1);
    let (prefix, timestamp) = timestamp_at(123);
    logger.write_text(0, b"before\n", false, timestamp);
    logger.set_timestamps(true);
    logger.write_text(0, b"during\n", false, timestamp);
    logger.set_timestamps(false);
    logger.write_text(0, b"after\n", false, timestamp);
    logger.flush(START);

    let expected = format!("before\n{prefix}during\nafter\n");
    assert_eq!(content(&mut logger, None), expected.as_bytes());
}

#[test]
fn raw_logs_ignore_timestamps() {
    let mut logger = open(true, LogFormat::Raw, 1);
    logger.set_timestamps(true);
    logger.write_raw(0, &[0, 1, b'\n', 0xff]);
    logger.flush(START);

    assert_eq!(content(&mut logger, Some(0)), &[0, 1, b'\n', 0xff]);
}

#[test]
fn decoded_terminal_logs_get_timestamps() {
    let mut logger = open(false, LogFormat::Decoded, 1);
    logger.set_timestamps(true);
    let (prefix, timestamp) = timestamp_at(42);
    logger.write_terminal(0, b"boot\n", false, timestamp);
    logger.flush(START);

    let expected = format!("{prefix}boot\n");
    assert_eq!(content(&mut logger, None), expected.as_bytes());
}

#[test]
fn flush_timestamps_an_unfinished_decoded_line() {
    let mut logger = open(false, LogFormat::Decoded, 1);
    logger.set_timestamps(true);
    logger.write_text(0, b"unfinished", false, START);
    logger.flush(START);

    let content = String::from_utf8(content(&mut logger, None)).unwrap();
    assert!(content.starts_with('['), "missing timestamp in {content:?}");
    assert!(content.ends_with("] unfinished"), "unexpected tail in {content:?}");
}

#[test]
fn logs_take_only_their_format() {
    let mut logger = open(false, LogFormat::Decoded, 1);
    logger.write_raw(0, b"raw\n");
    assert!(logger.take_writes().is_empty());
    let mut logger = open(false, LogFormat::Raw, 1);
    logger.write_text(0, b"text\n", false, START);
    logger.write_terminal(0, b"text\n", false, START);
    logger.write_raw(0, b"");
    logger.flush(START);
    assert!(logger.take_writes().is_empty());
}

#[test]
fn text_logs_hold_the_same_however_the_text_is_cut() {
    let text = b"one\n\ntwo\nthree";
    for cut in 0..=text.len() {
        let mut logger = open(false, LogFormat::Decoded, 1);
        logger.write_text(0, &text[..cut], false, START);
        logger.write_text(0, &text[cut..], false, START);
        assert_eq!(content(&mut logger, None), b"one\n\ntwo\n");
        logger.flush(START);
        assert_eq!(content(&mut logger, None), b"three");
    }
}

#[test]
fn terminal_logs_hold_the_same_however_the_output_is_cut() {
    let text: &[u8] = b"one\r\n\x1b[32mtwo\x1b[0m\rT\n\x1b[2Kthree\n";
    for cut in 0..=text.len() {
        assert_eq!(terminal_log(&[&text[..cut], &text[cut..]]), b"one\nTwo\nthree\n");
    }
}

#[test]
fn logs_keep_their_path() {
    let mut logger = open(false, LogFormat::Decoded, 1);
    logger.write_text(0, b"text", false, START);
    logger.write_terminal(0, b"line\n", false, START);
    logger.flush(START);
    logger.reset(START);
    logger.take_writes();
    assert_eq!(logger.path, PathBuf::from("capture.log"));
}

#[test]
fn terminal_logs_may_be_cut_after_any_bytes() {
    let text: &[u8] = b"one\r\n\x1b]0;a\nb\x07two\n";
    for before in [&b"\xe2\x82"[..], b"\xff", "żółw".as_bytes(), b"\x1b["] {
        let whole = terminal_log(&[before, text]);
        for cut in 0..=text.len() {
            assert_eq!(terminal_log(&[before, &text[..cut], &text[cut..]]), whole);
        }
    }
}
