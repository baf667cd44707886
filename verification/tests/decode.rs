use brtt::cli::{ChannelEncoding, ChannelSpec};
use brtt::decode::{
    decode_frames, Collector, DecodeOutput, FrameOutcome, PlainFrame, MAX_DECODED_FRAMES,
    MAX_DECODE_ITERATIONS,
};
use brtt::elf::{region_from_symbol, rtt_region_from_elf, DefmtData};
use brtt::filter::Level;
use brtt::output::OutputContext;
use brtt::reader::UpChannelReader;
use brtt::render::SessionState;
use brtt::scan::ScanRegion;
use std::collections::BTreeMap;

const NOW: i64 = 0;

/// A place where a symbol is defined.
#[derive(Clone, Copy)]
enum Place {
    Nowhere,
    Defmt,
    Data,
}

/// Builds an ELF file with a `.data` section, a `.defmt` section where one is
/// wanted, and symbols.
fn elf(defmt_section: bool, symbols: &[(String, u64, Place)]) -> Vec<u8> {
    let mut strings = vec![0u8];
    let mut table = vec![0u8; 24];
    for (name, value, place) in symbols {
        table.extend_from_slice(&(strings.len() as u32).to_le_bytes());
        table.extend_from_slice(&[0x11, 0]);
        let section: u16 = match place {
            Place::Nowhere => 0xfff1,
            Place::Defmt => 1,
            Place::Data => 2,
        };
        table.extend_from_slice(&section.to_le_bytes());
        table.extend_from_slice(&value.to_le_bytes());
        table.extend_from_slice(&0u64.to_le_bytes());
        strings.extend_from_slice(name.as_bytes());
        strings.push(0);
    }
    let names = b"\0.defmt\0.other\0.data\0.symtab\0.strtab\0.shstrtab\0";
    let data = vec![0u8; 64];
    let first_name: u32 = if defmt_section { 1 } else { 8 };
    let sections: [(u32, u32, &[u8], u32, u64); 5] = [
        (first_name, 1, &data, 0, 0),
        (15, 1, &data, 0, 0),
        (21, 2, &table, 4, 24),
        (29, 3, &strings, 0, 0),
        (37, 3, names, 0, 0),
    ];
    let mut body = Vec::new();
    let mut headers = vec![0u8; 64];
    for (name, kind, bytes, link, entry) in sections {
        headers.extend_from_slice(&name.to_le_bytes());
        headers.extend_from_slice(&kind.to_le_bytes());
        headers.extend_from_slice(&[0; 16]);
        headers.extend_from_slice(&(64 + body.len() as u64).to_le_bytes());
        headers.extend_from_slice(&(bytes.len() as u64).to_le_bytes());
        headers.extend_from_slice(&link.to_le_bytes());
        headers.extend_from_slice(&(if kind == 2 { 1u32 } else { 0 }).to_le_bytes());
        headers.extend_from_slice(&1u64.to_le_bytes());
        headers.extend_from_slice(&entry.to_le_bytes());
        body.extend_from_slice(bytes);
        body.resize(body.len().next_multiple_of(8), 0);
    }
    let mut file = b"\x7fELF\x02\x01\x01".to_vec();
    file.extend_from_slice(&[0; 9]);
    file.extend_from_slice(&2u16.to_le_bytes());
    file.extend_from_slice(&62u16.to_le_bytes());
    file.extend_from_slice(&1u32.to_le_bytes());
    file.extend_from_slice(&[0; 16]);
    file.extend_from_slice(&(64 + body.len() as u64).to_le_bytes());
    file.extend_from_slice(&0u32.to_le_bytes());
    for number in [64u16, 0, 0, 64, 6, 5] {
        file.extend_from_slice(&number.to_le_bytes());
    }
    file.extend_from_slice(&body);
    file.extend_from_slice(&headers);
    file
}

fn message(index: u64, tag: &str, data: &str) -> (String, u64, Place) {
    let name = format!(
        "{{\"package\":\"p\",\"tag\":\"defmt_{tag}\",\"data\":\"{data}\",\"disambiguator\":\"{index}\",\"crate_name\":\"app\"}}"
    );
    (name, index, Place::Defmt)
}

/// A firmware with three messages.
fn firmware(encoding: &str) -> Vec<u8> {
    elf(
        true,
        &[
            ("_defmt_version_ = 4".to_string(), 0, Place::Nowhere),
            (format!("_defmt_encoding_ = {encoding}"), 0, Place::Nowhere),
            message(1, "info", "hello {=u8}"),
            message(2, "println", "plain"),
            message(3, "error", "bad"),
            ("_SEGGER_RTT".to_string(), 0x2000_0010, Place::Data),
        ],
    )
}

fn load(encoding: &str) -> DefmtData {
    match DefmtData::load("firmware.elf", &firmware(encoding)) {
        Ok(data) => data,
        Err(failure) => panic!("no table: {failure:?}"),
    }
}

#[test]
fn control_blocks_are_found_in_elf_files() {
    assert!(matches!(
        rtt_region_from_elf("firmware.elf", &firmware("raw")),
        Ok(ScanRegion::Exact(0x2000_0010))
    ));
    let failure = rtt_region_from_elf("empty.elf", &elf(false, &[])).unwrap_err();
    assert_eq!(failure.message, "ELF 'empty.elf' has no defined _SEGGER_RTT symbol");
    assert!(failure.cause.is_none());
    let failure = rtt_region_from_elf("text.elf", b"no elf").unwrap_err();
    assert_eq!(failure.message, "failed to parse ELF 'text.elf'");
    assert!(!failure.cause.unwrap().is_empty());
    let undefined = [("_SEGGER_RTT".to_string(), 8, Place::Nowhere)];
    assert!(rtt_region_from_elf("x", &elf(false, &undefined)).is_err());
    assert!(matches!(region_from_symbol("x", Ok(Some(7))), Ok(ScanRegion::Exact(7))));
}

#[test]
fn tables_are_loaded_from_elf_files() {
    let failure = DefmtData::load("empty.elf", &elf(false, &[])).err().unwrap();
    assert_eq!(failure.message, "ELF 'empty.elf' contains no .defmt section");
    let failure = DefmtData::load("text.elf", b"no elf").err().unwrap();
    assert_eq!(failure.message, "failed to parse defmt table in 'text.elf'");
    assert!(!failure.cause.unwrap().is_empty());
    assert!(!load("raw").can_recover());
    assert!(load("rzcobs").can_recover());
}

#[test]
fn summaries_show_the_table() {
    let data = load("rzcobs");
    let mut output = Vec::new();
    data.debug_summary(&mut output);
    let text = String::from_utf8(output).unwrap();
    let lines: Vec<&str> = text.lines().collect();
    assert_eq!(
        lines[..9],
        [
            "ELF: firmware.elf",
            "Encoding: Rzcobs",
            "Has timestamp: false",
            "Locations: true",
            "Indices:",
            "  0x1",
            "  0x2",
            "  0x3",
            "Raw symbols:",
        ]
    );
    assert_eq!(lines.len(), 12);
    assert_eq!(lines[9], format!("  {}", message(1, "info", "hello {=u8}").0));
}

#[test]
fn frames_are_decoded_across_chunks() {
    let data = load("raw");
    let mut decoder = data.new_decoder();
    let result = decode_frames(&mut decoder, &[1, 0, 42, 2], &data.modules, false);
    assert_eq!(result.frames.len(), 1);
    assert!(!result.restart && !result.hit_frame_limit);
    match &result.frames[0] {
        DecodeOutput::Frame(frame) => {
            assert_eq!(frame.message, "hello 42");
            assert_eq!(frame.level, Some(Level::Info));
            assert_eq!(frame.timestamp, None);
            assert_eq!(frame.module, None);
        }
        other => panic!("unexpected output {other:?}"),
    }
    let result = decode_frames(&mut decoder, &[0, 3, 0], &data.modules, false);
    let texts: Vec<(String, Option<Level>)> = result
        .frames
        .iter()
        .map(|output| match output {
            DecodeOutput::Frame(frame) => (frame.message.clone(), frame.level),
            DecodeOutput::Warning(warning) => panic!("unexpected warning {warning}"),
        })
        .collect();
    assert_eq!(
        texts,
        [("plain".to_string(), None), ("bad".to_string(), Some(Level::Error))]
    );
}

#[test]
fn raw_encodings_restart_after_an_error() {
    let data = load("raw");
    let mut decoder = data.new_decoder();
    let result = decode_frames(&mut decoder, &[9, 9, 3, 0], &data.modules, false);
    assert!(result.restart);
    assert_eq!(result.warnings, 1);
    match result.frames.as_slice() {
        [DecodeOutput::Warning(warning)] => {
            assert_eq!(warning, "defmt decode warning: malformed data; resetting decoder")
        }
        other => panic!("unexpected outputs {other:?}"),
    }
}

#[test]
fn framed_encodings_report_a_few_errors_and_go_on() {
    let data = load("rzcobs");
    let mut decoder = data.new_decoder();
    let mut bytes = Vec::new();
    for _ in 0..10 {
        bytes.extend_from_slice(&[1, 0]);
    }
    // A frame of eight bytes: a length byte behind seven literal ones.
    bytes.extend_from_slice(&[0x03, 0x7e, 0]);
    let result = decode_frames(&mut decoder, &bytes, &data.modules, true);
    assert_eq!(result.warnings, 10);
    assert_eq!(result.suppressed_warnings, 2);
    assert!(!result.restart);
    let texts: Vec<String> = result
        .frames
        .iter()
        .map(|output| match output {
            DecodeOutput::Frame(frame) => frame.message.clone(),
            DecodeOutput::Warning(warning) => warning.clone(),
        })
        .collect();
    assert_eq!(texts.len(), 10);
    assert!(texts[..8].iter().all(|text| text == "defmt decode warning: malformed data"));
    assert_eq!(texts[8], "bad");
    assert_eq!(texts[9], "2 further defmt decode warnings suppressed");
}

#[test]
fn one_call_hands_out_a_bounded_number_of_frames() {
    let data = load("raw");
    let mut decoder = data.new_decoder();
    let bytes: Vec<u8> = (0..2 * (MAX_DECODED_FRAMES + 10)).map(|i| if i % 2 == 0 { 3 } else { 0 }).collect();
    let result = decode_frames(&mut decoder, &bytes, &data.modules, false);
    assert_eq!(result.frames.len(), MAX_DECODED_FRAMES);
    assert!(result.hit_frame_limit && !result.restart);
    let result = decode_frames(&mut decoder, &[], &data.modules, false);
    assert_eq!(result.frames.len(), 10);
    assert!(!result.hit_frame_limit);
}

#[test]
fn endless_errors_ask_for_a_new_decoder() {
    let mut collector = Collector::new();
    let mut attempts = 0;
    while collector.wants_more() {
        collector.take(FrameOutcome::Malformed("odd".to_string()), &None, true);
        attempts += 1;
    }
    let result = collector.finish();
    assert_eq!(attempts, MAX_DECODE_ITERATIONS);
    assert!(result.restart && !result.hit_frame_limit);
    assert_eq!(result.warnings, 4096);
    assert_eq!(result.suppressed_warnings, 4089);
    assert_eq!(result.frames.len(), 9);
}

#[test]
fn messages_get_the_module_of_their_index() {
    let modules = Some(BTreeMap::from([(4u64, "app::net".to_string())]));
    let mut collector = Collector::new();
    for index in [4, 5] {
        assert!(collector.wants_more());
        let frame = PlainFrame {
            index,
            level: Some(Level::Debug),
            message: "m".to_string(),
            timestamp: Some("1".to_string()),
        };
        collector.take(FrameOutcome::Frame(frame), &modules, true);
    }
    assert!(collector.wants_more());
    collector.take(FrameOutcome::UnexpectedEof, &modules, true);
    assert!(!collector.wants_more());
    let found: Vec<Option<String>> = collector
        .finish()
        .frames
        .into_iter()
        .map(|output| match output {
            DecodeOutput::Frame(frame) => frame.module,
            DecodeOutput::Warning(warning) => panic!("unexpected warning {warning}"),
        })
        .collect();
    assert_eq!(found, [Some("app::net".to_string()), None]);
}

fn context() -> OutputContext<'static> {
    let mut state = SessionState::new();
    state.interactive = false;
    OutputContext { state, logger: None, include_channel: false, filters: None, output: Vec::new() }
}

const DEFMT: ChannelSpec = ChannelSpec { index: 5, mode: ChannelEncoding::Defmt };

#[test]
fn defmt_channels_need_a_table() {
    assert_eq!(
        UpChannelReader::new(DEFMT, None).err().unwrap(),
        "missing defmt table for channel 5"
    );
    let terminal = ChannelSpec { index: 1, mode: ChannelEncoding::Terminal };
    assert!(UpChannelReader::new(terminal, None).unwrap().decoder.is_none());
}

#[test]
fn defmt_channels_show_what_they_decode() {
    let data = load("raw");
    let mut reader = UpChannelReader::new(DEFMT, Some(&data)).ok().unwrap();
    let mut render = context();
    assert!(!reader.process_defmt(&[1, 0, 7, 9, 9], NOW, &mut render));
    assert_eq!(reader.defmt_buffered_bytes, 0);
    assert!(!reader.process_defmt(&[3], NOW, &mut render));
    assert!(!reader.process_defmt(&[0], NOW, &mut render));
    assert_eq!(reader.defmt_buffered_bytes, 2);
    assert_eq!(
        render.take_output(),
        b"info hello 7\n[defmt warning #1] defmt decode warning: malformed data; resetting decoder\nerror bad\n"
    );
}

#[test]
fn decoders_that_have_had_their_share_are_replaced() {
    let data = load("rzcobs");
    let mut reader = UpChannelReader::new(DEFMT, Some(&data)).ok().unwrap();
    let mut render = context();
    let chunk = vec![1u8; 65536];
    reader.process_defmt(&chunk, NOW, &mut render);
    assert_eq!(reader.defmt_buffered_bytes, 65536);
    assert!(render.take_output().is_empty());
    reader.process_defmt(&[0x03, 0x7e, 0], NOW, &mut render);
    assert_eq!(reader.defmt_buffered_bytes, 3);
    assert_eq!(
        render.take_output(),
        b"[defmt warning #1] defmt decoder input exceeded 64 KiB; resetting decoder\nerror bad\n"
    );
    reader.restart();
    assert_eq!(reader.defmt_buffered_bytes, 0);
}
