//! The settings of a session and the texts that it shows.
use crate::cli::{
    configured_up_specs, encoding_name, ChannelEncoding, ChannelSpec, ColorMode, LogFormat, Opts,
};
use crate::elf::DefmtData;
use crate::filter::Filter;
use crate::probe::{ensure_supported_target, unsupported_target};
use crate::render::SessionState;
use crate::scan::ScanRegion;
use crate::text::{
    between, decimal, decimal_string, followed, lemma_encode_concat, push_decimal, push_str,
};
use vstd::prelude::*;
use vstd::utf8::*;

verus! {

/// What is known of a channel of the target.
pub struct ChannelInfo {
    pub number: usize,
    pub name: Option<String>,
    pub buffer_size: usize,
}

/// The first place, among the first `count`, of the channel with a number.
pub open spec fn channel_below(channels: Seq<ChannelInfo>, number: usize, count: int) -> Option<int>
    decreases count,
{
    if count <= 0 {
        None
    } else {
        match channel_below(channels, number, count - 1) {
            Some(place) => Some(place),
            None => if channels[count - 1].number == number {
                Some(count - 1)
            } else {
                None
            },
        }
    }
}

/// The channel with a number exists.
pub open spec fn channel_exists(channels: Seq<ChannelInfo>, number: usize) -> bool {
    channel_below(channels, number, channels.len() as int) is Some
}

proof fn lemma_channel_stays(channels: Seq<ChannelInfo>, number: usize, count: int, longer: int)
    requires
        count <= longer,
        channel_below(channels, number, count) is Some,
    ensures
        channel_below(channels, number, longer) == channel_below(channels, number, count),
    decreases longer - count,
{
    if count < longer {
        lemma_channel_stays(channels, number, count, longer - 1);
    }
}

/// A channel is found by its number, wherever it stands.
pub proof fn law_channels_are_found_by_number(channels: Seq<ChannelInfo>, number: usize)
    ensures
        channel_exists(channels, number) <==> exists|i: int|
            0 <= i < channels.len() && (#[trigger] channels[i]).number == number,
        channel_below(channels, number, channels.len() as int) matches Some(place) ==> 0 <= place
            < channels.len() && channels[place].number == number,
{
    lemma_channel_below(channels, number, channels.len() as int);
}

proof fn lemma_channel_below(channels: Seq<ChannelInfo>, number: usize, count: int)
    requires
        0 <= count <= channels.len(),
    ensures
        match channel_below(channels, number, count) {
            Some(place) => 0 <= place < count && channels[place].number == number,
            None => forall|i: int| 0 <= i < count ==> (#[trigger] channels[i]).number != number,
        },
    decreases count,
{
    if count > 0 {
        lemma_channel_below(channels, number, count - 1);
    }
}

/// Finds the place of the channel with a number.
pub fn channel_place(channels: &[ChannelInfo], number: usize) -> (place: Option<usize>)
    ensures
        match place {
            Some(place) => channel_below(channels@, number, channels@.len() as int) == Some(
                place as int,
            ) && place < channels@.len(),
            None => !channel_exists(channels@, number),
        },
{
    let mut index: usize = 0;
    while index < channels.len()
        invariant
            index <= channels@.len(),
            channel_below(channels@, number, index as int) is None,
        decreases channels@.len() - index,
    {
        if channels[index].number == number {
            assert(channel_below(channels@, number, index + 1) == Some(index as int));
            proof {
                lemma_channel_stays(channels@, number, index + 1, channels@.len() as int);
            }
            return Some(index);
        }
        index += 1;
    }
    None
}

/// Finds the channel with a number.
pub fn channel_by_number(channels: &[ChannelInfo], number: usize) -> (channel: Option<&ChannelInfo>)
    ensures
        match channel {
            Some(channel) => channel_exists(channels@, number) && *channel
                == channels@[channel_below(channels@, number, channels@.len() as int)->0],
            None => !channel_exists(channels@, number),
        },
{
    match channel_place(channels, number) {
        Some(place) => Some(&channels[place]),
        None => None,
    }
}

/// The first of the asked up channels, among the first `count`, that is missing.
pub open spec fn missing_channel(
    channels: Seq<ChannelInfo>,
    specs: Seq<ChannelSpec>,
    count: int,
) -> Option<u32>
    decreases count,
{
    if count <= 0 {
        None
    } else {
        match missing_channel(channels, specs, count - 1) {
            Some(index) => Some(index),
            None => if channel_exists(channels, specs[count - 1].index as usize) {
                None
            } else {
                Some(specs[count - 1].index)
            },
        }
    }
}

proof fn lemma_missing_stays(
    channels: Seq<ChannelInfo>,
    specs: Seq<ChannelSpec>,
    count: int,
    longer: int,
)
    requires
        count <= longer,
        missing_channel(channels, specs, count) is Some,
    ensures
        missing_channel(channels, specs, longer) == missing_channel(channels, specs, count),
    decreases longer - count,
{
    if count < longer {
        lemma_missing_stays(channels, specs, count, longer - 1);
    }
}

/// What is wrong with the channels that are asked for.
pub open spec fn channels_problem(
    up_channels: Seq<ChannelInfo>,
    down_channels: Seq<ChannelInfo>,
    specs: Seq<ChannelSpec>,
    down_channel: Option<usize>,
) -> Option<Seq<char>> {
    match missing_channel(up_channels, specs, specs.len() as int) {
        Some(index) => Some(
            "Error: up channel "@ + decimal(index as nat) + " does not exist."@,
        ),
        None => match down_channel {
            Some(number) => if channel_exists(down_channels, number) {
                None
            } else {
                Some("Error: down channel "@ + decimal(number as nat) + " does not exist."@)
            },
            None => None,
        },
    }
}

/// Checks that the up channels that are asked for exist.
pub fn validate_up_specs(channels: &[ChannelInfo], specs: &[ChannelSpec]) -> (result: Result<
    (),
    String,
>)
    ensures
        match result {
            Ok(()) => missing_channel(channels@, specs@, specs@.len() as int) is None,
            Err(message) => missing_channel(channels@, specs@, specs@.len() as int) matches Some(
                index,
            ) && message@ == "Error: up channel "@ + decimal(index as nat) + " does not exist."@,
        },
{
    let mut index: usize = 0;
    while index < specs.len()
        invariant
            index <= specs@.len(),
            missing_channel(channels@, specs@, index as int) is None,
        decreases specs@.len() - index,
    {
        let number = specs[index].index;
        if channel_by_number(channels, number as usize).is_none() {
            assert(missing_channel(channels@, specs@, index + 1) == Some(number));
            proof {
                lemma_missing_stays(channels@, specs@, index + 1, specs@.len() as int);
            }
            let text = decimal_string(number as u64);
            return Err(between("Error: up channel ", text.as_str(), " does not exist."));
        }
        index += 1;
    }
    Ok(())
}

/// Checks that the channels that are asked for exist.
pub fn validate_channels(
    up_channels: &[ChannelInfo],
    down_channels: &[ChannelInfo],
    config: &SessionConfig,
) -> (result: Result<(), String>)
    ensures
        match result {
            Ok(()) => channels_problem(
                up_channels@,
                down_channels@,
                config.up_specs@,
                config.down_channel,
            ) is None,
            Err(message) => channels_problem(
                up_channels@,
                down_channels@,
                config.up_specs@,
                config.down_channel,
            ) == Some(message@),
        },
{
    if let Err(message) = validate_up_specs(up_channels, &config.up_specs) {
        return Err(message);
    }
    if let Some(number) = config.down_channel {
        if channel_by_number(down_channels, number).is_none() {
            let text = decimal_string(number as u64);
            return Err(between("Error: down channel ", text.as_str(), " does not exist."));
        }
    }
    Ok(())
}

/// Refuses targets whose RTT buffers cannot be written.
pub fn ensure_rtt_compatible_target(is_64_bit: bool) -> (result: Result<(), String>)
    ensures
        match result {
            Ok(()) => !is_64_bit,
            Err(message) => is_64_bit && message@ == unsupported_target(),
        },
{
    ensure_supported_target(is_64_bit)
}

/// A text with a line for each of the first `count` channels behind it.
pub open spec fn with_channels(text: Seq<u8>, channels: Seq<ChannelInfo>, count: int) -> Seq<u8>
    decreases count,
{
    if count <= 0 {
        text
    } else {
        let channel = channels[count - 1];
        with_channels(text, channels, count - 1) + encode_utf8("  "@) + encode_utf8(
            decimal(channel.number as nat),
        ) + encode_utf8(": "@) + encode_utf8(
            match channel.name {
                Some(name) => name@,
                None => "(no name)"@,
            },
        ) + encode_utf8(" (buffer size "@) + encode_utf8(decimal(channel.buffer_size as nat))
            + encode_utf8(")\n"@)
    }
}

/// A text with the list of channels behind it.
pub open spec fn with_channel_list(text: Seq<u8>, channels: Seq<ChannelInfo>) -> Seq<u8> {
    if channels.len() == 0 {
        text + encode_utf8("  (none)\n"@)
    } else {
        with_channels(text, channels, channels.len() as int)
    }
}

/// Writes the list of channels.
pub fn list_channels(output: &mut Vec<u8>, channels: &[ChannelInfo])
    ensures
        final(output)@ == with_channel_list(old(output)@, channels@),
{
    if channels.len() == 0 {
        push_str(output, "  (none)\n");
        return ;
    }
    let ghost start = output@;
    let mut index: usize = 0;
    while index < channels.len()
        invariant
            index <= channels@.len(),
            output@ == with_channels(start, channels@, index as int),
        decreases channels@.len() - index,
    {
        push_str(output, "  ");
        push_decimal(output, channels[index].number as u64);
        push_str(output, ": ");
        match &channels[index].name {
            Some(name) => push_str(output, name.as_str()),
            None => push_str(output, "(no name)"),
        }
        push_str(output, " (buffer size ");
        push_decimal(output, channels[index].buffer_size as u64);
        push_str(output, ")\n");
        index += 1;
    }
}

/// Writes the lists of the up and the down channels.
pub fn list_all_channels(
    output: &mut Vec<u8>,
    up_channels: &[ChannelInfo],
    down_channels: &[ChannelInfo],
)
    ensures
        final(output)@ == with_channel_list(
            with_channel_list(old(output)@ + encode_utf8("Up channels:\n"@), up_channels@)
                + encode_utf8("Down channels:\n"@),
            down_channels@,
        ),
{
    push_str(output, "Up channels:\n");
    list_channels(output, up_channels);
    push_str(output, "Down channels:\n");
    list_channels(output, down_channels);
}

/// The settings of a session.
pub struct SessionConfig {
    pub probe: String,
    pub chip: String,
    pub up_specs: Vec<ChannelSpec>,
    pub down_channel: Option<usize>,
    /// In milliseconds.
    pub poll_interval: u64,
    pub reset: bool,
    pub timestamps: bool,
    pub defmt: Option<DefmtData>,
    pub defmt_filters: Option<Vec<Filter>>,
    pub color: ColorMode,
    pub log: Option<std::path::PathBuf>,
    pub log_per_channel: bool,
    pub log_format: LogFormat,
    pub scan_region: ScanRegion,
    pub automatic_scan: bool,
}

impl SessionConfig {
    /// The settings that the options ask for.
    pub fn from_opts(
        opts: Opts,
        probe: String,
        chip: String,
        defmt: Option<DefmtData>,
        scan_region: ScanRegion,
        automatic_scan: bool,
    ) -> (config: Self)
        ensures
            config.probe == probe,
            config.chip == chip,
            config.up_specs@ == (if opts.up@.len() == 0 {
                seq![ChannelSpec { index: 0, mode: ChannelEncoding::Terminal }]
            } else {
                opts.up@
            }),
            config.down_channel == (if opts.no_down {
                None
            } else {
                match opts.down {
                    Some(index) => Some(index as usize),
                    None => Some(0),
                }
            }),
            config.poll_interval == opts.poll_interval,
            config.reset == opts.reset,
            config.timestamps == opts.timestamps,
            config.defmt == defmt,
            config.defmt_filters == (match opts.defmt_filters {
                Some(spec) => Some(spec.0),
                None => None,
            }),
            config.color == opts.color,
            config.log == opts.log,
            config.log_per_channel == opts.log_per_channel,
            config.log_format == (match opts.log_format {
                Some(format) => format,
                None => LogFormat::Decoded,
            }),
            config.scan_region == scan_region,
            config.automatic_scan == automatic_scan,
    {
        let down_channel = if opts.no_down {
            None
        } else {
            match opts.down {
                Some(index) => Some(index as usize),
                None => Some(0),
            }
        };
        SessionConfig {
            probe,
            chip,
            up_specs: configured_up_specs(&opts.up),
            down_channel,
            poll_interval: opts.poll_interval,
            reset: opts.reset,
            timestamps: opts.timestamps,
            defmt,
            defmt_filters: match opts.defmt_filters {
                Some(spec) => Some(spec.0),
                None => None,
            },
            color: opts.color,
            log: opts.log,
            log_per_channel: opts.log_per_channel,
            log_format: match opts.log_format {
                Some(format) => format,
                None => LogFormat::Decoded,
            },
            scan_region,
            automatic_scan,
        }
    }
}

/// Decides whether colours are used: as asked for, else at a terminal whose user
/// has not turned them off.
pub fn uses_color(mode: ColorMode, terminal: bool, no_color: bool) -> (color: bool)
    ensures
        color == (match mode {
            ColorMode::Always => true,
            ColorMode::Never => false,
            ColorMode::Auto => terminal && !no_color,
        }),
{
    match mode {
        ColorMode::Always => true,
        ColorMode::Never => false,
        ColorMode::Auto => terminal && !no_color,
    }
}

/// The help text.
pub open spec fn help_text() -> Seq<char> {
    "\r\nCtrl-T commands:\r\n  q  Quit\r\n  ?  Show this help\r\n  c  Show configuration\r\n  l  Clear screen\r\n  t  Toggle timestamps\r\n  e  Toggle local echo\r\n  R  Reset target\r\n  Ctrl-T  Send a literal Ctrl-T\r\n\r\nCtrl-C is sent to the target.\r\n\r\nNot implemented from tio (not applicable to RTT):\r\n  serial port settings, device auto-connect/reconnect, input/output hex modes,\r\n  output delays, character mapping, scripts, socket/exec redirection, RS-485,\r\n  connect alerts, and tio-specific log file options.\r\n"@
}

/// Writes the help text.
pub fn write_help(output: &mut Vec<u8>)
    ensures
        final(output)@ == old(output)@ + encode_utf8(help_text()),
{
    push_str(
        output,
        "\r\nCtrl-T commands:\r\n  q  Quit\r\n  ?  Show this help\r\n  c  Show configuration\r\n  l  Clear screen\r\n  t  Toggle timestamps\r\n  e  Toggle local echo\r\n  R  Reset target\r\n  Ctrl-T  Send a literal Ctrl-T\r\n\r\nCtrl-C is sent to the target.\r\n\r\nNot implemented from tio (not applicable to RTT):\r\n  serial port settings, device auto-connect/reconnect, input/output hex modes,\r\n  output delays, character mapping, scripts, socket/exec redirection, RS-485,\r\n  connect alerts, and tio-specific log file options.\r\n",
    );
}

/// Writes what is shown when a session starts.
pub fn write_session_banner(output: &mut Vec<u8>, version: &str)
    ensures
        final(output)@ == old(output)@ + encode_utf8("brtt "@) + encode_utf8(version@)
            + encode_utf8("\r\nPress ctrl-t ? for help\r\nConnected to target\r\n"@),
{
    push_str(output, "brtt ");
    push_str(output, version);
    push_str(output, "\r\nPress ctrl-t ? for help\r\nConnected to target\r\n");
}

/// A switch in words.
pub open spec fn switch_text(enabled: bool) -> Seq<char> {
    if enabled {
        "on"@
    } else {
        "off"@
    }
}

/// A switch in words.
pub fn on_or_off(enabled: bool) -> (text: &'static str)
    ensures
        text@ == switch_text(enabled),
{
    if enabled {
        "on"
    } else {
        "off"
    }
}

/// A text with the state of a switch behind it, on a line of its own.
pub open spec fn with_toggle_status(text: Seq<u8>, label: Seq<char>, enabled: bool) -> Seq<u8> {
    text + encode_utf8("\r\n"@) + encode_utf8(label) + encode_utf8(": "@) + encode_utf8(
        switch_text(enabled),
    ) + encode_utf8("\r\n"@)
}

/// Writes the state of a switch.
pub fn write_toggle_status(output: &mut Vec<u8>, label: &str, enabled: bool)
    ensures
        final(output)@ == with_toggle_status(old(output)@, label@, enabled),
{
    push_str(output, "\r\n");
    push_str(output, label);
    push_str(output, ": ");
    push_str(output, on_or_off(enabled));
    push_str(output, "\r\n");
}

/// A text with a setting behind it, on a line of its own.
pub open spec fn with_setting(text: Seq<u8>, label: Seq<char>, value: Seq<char>) -> Seq<u8> {
    text + encode_utf8(label) + encode_utf8(value) + encode_utf8("\r\n"@)
}

fn push_setting(output: &mut Vec<u8>, label: &str, value: &str)
    ensures
        final(output)@ == with_setting(old(output)@, label@, value@),
{
    push_str(output, label);
    push_str(output, value);
    push_str(output, "\r\n");
}

/// A text with the first `count` up channels behind it.
pub open spec fn with_up_specs(text: Seq<u8>, specs: Seq<ChannelSpec>, count: int) -> Seq<u8>
    decreases count,
{
    if count <= 0 {
        text
    } else {
        with_up_specs(text, specs, count - 1) + encode_utf8(" "@) + encode_utf8(
            decimal(specs[count - 1].index as nat),
        ) + encode_utf8(":"@) + encode_utf8(encoding_name(specs[count - 1].mode))
    }
}

/// A text with the settings of a session behind it.
pub open spec fn with_config(
    text: Seq<u8>,
    config: SessionConfig,
    timestamps: bool,
    local_echo: bool,
) -> Seq<u8> {
    let named = with_setting(
        with_setting(
            text + encode_utf8("\r\nConfiguration:\r\n"@),
            "  Probe: "@,
            config.probe@,
        ),
        "  Chip: "@,
        config.chip@,
    );
    let up = with_up_specs(
        named + encode_utf8("  Up channels:"@),
        config.up_specs@,
        config.up_specs@.len() as int,
    ) + encode_utf8("\r\n"@);
    let down = match config.down_channel {
        Some(number) => with_setting(up, "  Down channel: "@, decimal(number as nat)),
        None => with_setting(up, "  Down channel: "@, "disabled"@),
    };
    let polled = with_setting(
        down,
        "  Poll interval: "@,
        decimal(config.poll_interval as nat) + " ms"@,
    );
    with_setting(
        with_setting(polled, "  Timestamps: "@, switch_text(timestamps)),
        "  Local echo: "@,
        switch_text(local_echo),
    )
}

/// Writes the settings of a session.
pub fn write_config(config: &SessionConfig, state: &SessionState, output: &mut Vec<u8>)
    ensures
        final(output)@ == with_config(old(output)@, *config, state.timestamps, state.local_echo),
{
    push_str(output, "\r\nConfiguration:\r\n");
    push_setting(output, "  Probe: ", config.probe.as_str());
    push_setting(output, "  Chip: ", config.chip.as_str());
    push_str(output, "  Up channels:");
    push_up_specs(output, &config.up_specs);
    push_str(output, "\r\n");
    match config.down_channel {
        Some(number) => {
            let text = decimal_string(number as u64);
            push_setting(output, "  Down channel: ", text.as_str());
        },
        None => push_setting(output, "  Down channel: ", "disabled"),
    }
    let interval = decimal_string(config.poll_interval);
    let interval = followed(interval.as_str(), " ms");
    push_setting(output, "  Poll interval: ", interval.as_str());
    push_setting(output, "  Timestamps: ", on_or_off(state.timestamps));
    push_setting(output, "  Local echo: ", on_or_off(state.local_echo));
}

fn push_up_specs(output: &mut Vec<u8>, specs: &Vec<ChannelSpec>)
    ensures
        final(output)@ == with_up_specs(old(output)@, specs@, specs@.len() as int),
{
    let ghost start = output@;
    let mut index: usize = 0;
    while index < specs.len()
        invariant
            index <= specs@.len(),
            output@ == with_up_specs(start, specs@, index as int),
        decreases specs@.len() - index,
    {
        push_str(output, " ");
        push_decimal(output, specs[index].index as u64);
        push_str(output, ":");
        push_str(output, specs[index].mode.name());
        index += 1;
    }
}

/// Calls `Clear::write_ansi` of crossterm on `ClearType::All`: the sequence that
/// empties the screen.
#[verifier::external_body]
fn clear_all_sequence() -> (sequence: String)
    ensures
        sequence@ == "\x1b[2J"@,
{
    let mut sequence = String::new();
    let clear = crossterm::terminal::Clear(crossterm::terminal::ClearType::All);
    crossterm::Command::write_ansi(&clear, &mut sequence).unwrap();
    sequence
}

/// Calls `MoveTo::write_ansi` of crossterm: the sequence that moves the cursor to a
/// column and a row, which are counted from zero and written from one.
#[verifier::external_body]
fn move_to_sequence(column: u16, row: u16) -> (sequence: String)
    requires
        column < u16::MAX,
        row < u16::MAX,
    ensures
        sequence@ == "\x1b["@ + decimal((row + 1) as nat) + ";"@ + decimal((column + 1) as nat)
            + "H"@,
{
    let mut sequence = String::new();
    crossterm::Command::write_ansi(&crossterm::cursor::MoveTo(column, row), &mut sequence).unwrap();
    sequence
}

/// A text with the sequences behind it that empty the screen and move the cursor
/// to its start.
pub open spec fn with_cleared_screen(text: Seq<u8>) -> Seq<u8> {
    text + encode_utf8("\x1b[2J"@) + encode_utf8(
        "\x1b["@ + decimal(1) + ";"@ + decimal(1) + "H"@,
    )
}

/// Empties the screen.
pub fn clear_screen(output: &mut Vec<u8>)
    ensures
        final(output)@ == with_cleared_screen(old(output)@),
{
    push_str(output, clear_all_sequence().as_str());
    push_str(output, move_to_sequence(0, 0).as_str());
}

/// A channel with a number is among those of the target.
pub open spec fn has_channel(channels: Seq<ChannelInfo>, number: usize) -> bool {
    exists|i: int| 0 <= i < channels.len() && (#[trigger] channels[i]).number == number
}

/// Nothing is wrong with the channels that are asked for exactly where each of them
/// is among those of the target.
pub proof fn law_missing_channels_are_a_problem(
    up_channels: Seq<ChannelInfo>,
    down_channels: Seq<ChannelInfo>,
    specs: Seq<ChannelSpec>,
    down_channel: Option<usize>,
)
    ensures
        channels_problem(up_channels, down_channels, specs, down_channel) is None <==> {
            &&& forall|i: int|
                0 <= i < specs.len() ==> has_channel(
                    up_channels,
                    (#[trigger] specs[i]).index as usize,
                )
            &&& down_channel matches Some(number) ==> has_channel(down_channels, number)
        },
{
    lemma_missing_channel(up_channels, specs, specs.len() as int);
    if let Some(number) = down_channel {
        law_channels_are_found_by_number(down_channels, number);
    }
}

proof fn lemma_missing_channel(channels: Seq<ChannelInfo>, specs: Seq<ChannelSpec>, count: int)
    requires
        0 <= count <= specs.len(),
    ensures
        missing_channel(channels, specs, count) is None <==> forall|i: int|
            0 <= i < count ==> has_channel(channels, (#[trigger] specs[i]).index as usize),
    decreases count,
{
    if count > 0 {
        lemma_missing_channel(channels, specs, count - 1);
        law_channels_are_found_by_number(channels, specs[count - 1].index as usize);
    }
}

/// Of the missing up channels the first that was asked for is named; a missing down
/// channel is named where all up channels are there.
pub proof fn law_first_missing_channel_is_named(
    up_channels: Seq<ChannelInfo>,
    down_channels: Seq<ChannelInfo>,
    specs: Seq<ChannelSpec>,
    down_channel: Option<usize>,
    i: int,
)
    requires
        0 <= i <= specs.len(),
        forall|j: int|
            0 <= j < i ==> has_channel(up_channels, (#[trigger] specs[j]).index as usize),
        i < specs.len() ==> !has_channel(up_channels, specs[i].index as usize),
    ensures
        i < specs.len() ==> channels_problem(up_channels, down_channels, specs, down_channel)
            == Some("Error: up channel "@ + decimal(specs[i].index as nat) + " does not exist."@),
        i == specs.len() && down_channel is Some && !has_channel(down_channels, down_channel->0)
            ==> channels_problem(up_channels, down_channels, specs, down_channel) == Some(
            "Error: down channel "@ + decimal(down_channel->0 as nat) + " does not exist."@,
        ),
{
    lemma_missing_channel(up_channels, specs, i);
    if i < specs.len() {
        law_channels_are_found_by_number(up_channels, specs[i].index as usize);
        lemma_missing_stays(up_channels, specs, i + 1, specs.len() as int);
    } else if let Some(number) = down_channel {
        law_channels_are_found_by_number(down_channels, number);
    }
}

/// A switch is shown by its name and its state, on a line of its own.
pub proof fn law_switches_are_shown(text: Seq<u8>)
    ensures
        with_toggle_status(text, "Timestamps"@, true) == text + encode_utf8(
            "\r\nTimestamps: on\r\n"@,
        ),
        with_toggle_status(text, "Timestamps"@, false) == text + encode_utf8(
            "\r\nTimestamps: off\r\n"@,
        ),
        with_toggle_status(text, "Local echo"@, true) == text + encode_utf8(
            "\r\nLocal echo: on\r\n"@,
        ),
        with_toggle_status(text, "Local echo"@, false) == text + encode_utf8(
            "\r\nLocal echo: off\r\n"@,
        ),
{
    reveal_strlit("\r\n");
    reveal_strlit("Timestamps");
    reveal_strlit("Local echo");
    reveal_strlit(": ");
    reveal_strlit("on");
    reveal_strlit("off");
    reveal_strlit("\r\nTimestamps: on\r\n");
    reveal_strlit("\r\nTimestamps: off\r\n");
    reveal_strlit("\r\nLocal echo: on\r\n");
    reveal_strlit("\r\nLocal echo: off\r\n");
    lemma_toggle_status(text, "Timestamps"@, true);
    lemma_toggle_status(text, "Timestamps"@, false);
    lemma_toggle_status(text, "Local echo"@, true);
    lemma_toggle_status(text, "Local echo"@, false);
    assert("\r\n"@ + "Timestamps"@ + ": "@ + "on"@ + "\r\n"@ =~= "\r\nTimestamps: on\r\n"@);
    assert("\r\n"@ + "Timestamps"@ + ": "@ + "off"@ + "\r\n"@ =~= "\r\nTimestamps: off\r\n"@);
    assert("\r\n"@ + "Local echo"@ + ": "@ + "on"@ + "\r\n"@ =~= "\r\nLocal echo: on\r\n"@);
    assert("\r\n"@ + "Local echo"@ + ": "@ + "off"@ + "\r\n"@ =~= "\r\nLocal echo: off\r\n"@);
}

proof fn lemma_toggle_status(text: Seq<u8>, label: Seq<char>, enabled: bool)
    ensures
        with_toggle_status(text, label, enabled) == text + encode_utf8(
            "\r\n"@ + label + ": "@ + switch_text(enabled) + "\r\n"@,
        ),
{
    let state = switch_text(enabled);
    lemma_encode_concat("\r\n"@, label);
    lemma_encode_concat("\r\n"@ + label, ": "@);
    lemma_encode_concat("\r\n"@ + label + ": "@, state);
    lemma_encode_concat("\r\n"@ + label + ": "@ + state, "\r\n"@);
    assert(with_toggle_status(text, label, enabled) =~= text + encode_utf8(
        "\r\n"@ + label + ": "@ + state + "\r\n"@,
    ));
}

/// Emptying the screen leaves the cursor in its first column and row.
pub proof fn law_cleared_screens_start_at_the_top(text: Seq<u8>)
    ensures
        with_cleared_screen(text) == text + encode_utf8("\x1b[2J\x1b[1;1H"@),
{
    reveal_with_fuel(decimal, 2);
    assert(decimal(1) =~= seq!['1']);
    reveal_strlit("\x1b[2J");
    reveal_strlit("\x1b[");
    reveal_strlit(";");
    reveal_strlit("H");
    reveal_strlit("\x1b[2J\x1b[1;1H");
    let moved = "\x1b["@ + decimal(1) + ";"@ + decimal(1) + "H"@;
    lemma_encode_concat("\x1b[2J"@, moved);
    assert("\x1b[2J"@ + moved =~= "\x1b[2J\x1b[1;1H"@);
    assert(with_cleared_screen(text) =~= text + encode_utf8("\x1b[2J\x1b[1;1H"@));
}

/// The line that lists a channel.
pub open spec fn channel_line(channel: ChannelInfo) -> Seq<char> {
    "  "@ + decimal(channel.number as nat) + ": "@ + (match channel.name {
        Some(name) => name@,
        None => "(no name)"@,
    }) + " (buffer size "@ + decimal(channel.buffer_size as nat) + ")\n"@
}

/// The list of channels has a line for each of them, in their order: with its number,
/// its name and the size of its buffer. Where there is none, it says so.
pub proof fn law_channels_are_listed(
    text: Seq<u8>,
    channels: Seq<ChannelInfo>,
    channel: ChannelInfo,
)
    ensures
        channels.len() == 0 ==> with_channel_list(text, channels) == text + encode_utf8(
            "  (none)\n"@,
        ),
        with_channel_list(text, seq![channel]) == text + encode_utf8(channel_line(channel)),
        channels.len() > 0 ==> with_channel_list(text, channels.push(channel)) == with_channel_list(
            text,
            channels,
        ) + encode_utf8(channel_line(channel)),
{
    let more = channels.push(channel);
    lemma_channel_line(text, seq![channel], 1);
    lemma_channel_line(text, more, more.len() as int);
    lemma_same_channels(text, more, channels, channels.len() as int);
    assert(with_channels(text, seq![channel], 0) == text);
}

proof fn lemma_channel_line(text: Seq<u8>, channels: Seq<ChannelInfo>, count: int)
    requires
        0 < count,
    ensures
        with_channels(text, channels, count) == with_channels(text, channels, count - 1)
            + encode_utf8(channel_line(channels[count - 1])),
{
    let channel = channels[count - 1];
    let name = match channel.name {
        Some(name) => name@,
        None => "(no name)"@,
    };
    let number = decimal(channel.number as nat);
    let size = decimal(channel.buffer_size as nat);
    lemma_encode_concat("  "@, number);
    lemma_encode_concat("  "@ + number, ": "@);
    lemma_encode_concat("  "@ + number + ": "@, name);
    lemma_encode_concat("  "@ + number + ": "@ + name, " (buffer size "@);
    lemma_encode_concat("  "@ + number + ": "@ + name + " (buffer size "@, size);
    lemma_encode_concat("  "@ + number + ": "@ + name + " (buffer size "@ + size, ")\n"@);
    assert(with_channels(text, channels, count) =~= with_channels(text, channels, count - 1)
        + encode_utf8(channel_line(channel)));
}

proof fn lemma_same_channels(
    text: Seq<u8>,
    first: Seq<ChannelInfo>,
    second: Seq<ChannelInfo>,
    count: int,
)
    requires
        0 <= count <= first.len(),
        count <= second.len(),
        forall|i: int| 0 <= i < count ==> first[i] == second[i],
    ensures
        with_channels(text, first, count) == with_channels(text, second, count),
    decreases count,
{
    if count > 0 {
        lemma_same_channels(text, first, second, count - 1);
    }
}

/// The up channels of the settings, each with its number and the name of its
/// encoding.
pub open spec fn up_specs_text(specs: Seq<ChannelSpec>) -> Seq<char>
    decreases specs.len(),
{
    if specs.len() == 0 {
        Seq::empty()
    } else {
        up_specs_text(specs.drop_last()) + " "@ + decimal(specs.last().index as nat) + (
        match specs.last().mode {
            ChannelEncoding::Terminal => ":terminal"@,
            ChannelEncoding::Defmt => ":defmt"@,
        })
    }
}

proof fn lemma_up_specs(text: Seq<u8>, specs: Seq<ChannelSpec>, count: int)
    requires
        0 <= count <= specs.len(),
    ensures
        with_up_specs(text, specs, count) == text + encode_utf8(up_specs_text(specs.take(count))),
    decreases count,
{
    if count == 0 {
        assert(specs.take(0) =~= Seq::<ChannelSpec>::empty());
        let nothing = Seq::<char>::empty();
        assert(is_ascii_chars(nothing));
        is_ascii_chars_encode_utf8(nothing);
        assert(encode_utf8(nothing) =~= Seq::<u8>::empty());
        assert(text + Seq::<u8>::empty() =~= text);
    } else {
        lemma_up_specs(text, specs, count - 1);
        assert(specs.take(count).drop_last() =~= specs.take(count - 1));
        let spec = specs[count - 1];
        let before = up_specs_text(specs.take(count - 1));
        let number = decimal(spec.index as nat);
        let named = match spec.mode {
            ChannelEncoding::Terminal => ":terminal"@,
            ChannelEncoding::Defmt => ":defmt"@,
        };
        reveal_strlit(":");
        reveal_strlit("terminal");
        reveal_strlit("defmt");
        reveal_strlit(":terminal");
        reveal_strlit(":defmt");
        assert(":"@ + "terminal"@ =~= ":terminal"@);
        assert(":"@ + "defmt"@ =~= ":defmt"@);
        assert(":"@ + encoding_name(spec.mode) =~= named);
        lemma_encode_concat(":"@, encoding_name(spec.mode));
        lemma_encode_concat(before, " "@);
        lemma_encode_concat(before + " "@, number);
        lemma_encode_concat(before + " "@ + number, named);
        assert(specs.take(count).last() == spec);
        assert(with_up_specs(text, specs, count) =~= text + encode_utf8(
            before + " "@ + number + named,
        ));
    }
}

/// The settings are shown one to a line: probe, chip, up channels, down channel, poll
/// interval, and the two switches as they stand.
pub proof fn law_settings_are_shown(
    text: Seq<u8>,
    config: SessionConfig,
    timestamps: bool,
    local_echo: bool,
)
    ensures
        with_config(text, config, timestamps, local_echo) == text + encode_utf8(
            "\r\nConfiguration:\r\n  Probe: "@,
        ) + encode_utf8(config.probe@) + encode_utf8("\r\n  Chip: "@) + encode_utf8(config.chip@)
            + encode_utf8("\r\n  Up channels:"@) + encode_utf8(up_specs_text(config.up_specs@))
            + encode_utf8("\r\n  Down channel: "@) + encode_utf8(
            match config.down_channel {
                Some(number) => decimal(number as nat),
                None => "disabled"@,
            },
        ) + encode_utf8("\r\n  Poll interval: "@) + encode_utf8(
            decimal(config.poll_interval as nat),
        ) + encode_utf8(" ms\r\n  Timestamps: "@) + encode_utf8(
            if timestamps {
                "on"@
            } else {
                "off"@
            },
        ) + encode_utf8("\r\n  Local echo: "@) + encode_utf8(
            if local_echo {
                "on"@
            } else {
                "off"@
            },
        ) + encode_utf8("\r\n"@),
{
    reveal_strlit("\r\nConfiguration:\r\n");
    reveal_strlit("  Probe: ");
    reveal_strlit("\r\nConfiguration:\r\n  Probe: ");
    reveal_strlit("\r\n");
    reveal_strlit("  Chip: ");
    reveal_strlit("\r\n  Chip: ");
    reveal_strlit("  Up channels:");
    reveal_strlit("\r\n  Up channels:");
    reveal_strlit("  Down channel: ");
    reveal_strlit("\r\n  Down channel: ");
    reveal_strlit("  Poll interval: ");
    reveal_strlit("\r\n  Poll interval: ");
    reveal_strlit(" ms");
    reveal_strlit("  Timestamps: ");
    reveal_strlit(" ms\r\n  Timestamps: ");
    reveal_strlit("  Local echo: ");
    reveal_strlit("\r\n  Local echo: ");
    assert("\r\nConfiguration:\r\n"@ + "  Probe: "@ =~= "\r\nConfiguration:\r\n  Probe: "@);
    assert("\r\n"@ + "  Chip: "@ =~= "\r\n  Chip: "@);
    assert("\r\n"@ + "  Up channels:"@ =~= "\r\n  Up channels:"@);
    assert("\r\n"@ + "  Down channel: "@ =~= "\r\n  Down channel: "@);
    assert("\r\n"@ + "  Poll interval: "@ =~= "\r\n  Poll interval: "@);
    assert(" ms"@ + "\r\n"@ + "  Timestamps: "@ =~= " ms\r\n  Timestamps: "@);
    assert("\r\n"@ + "  Local echo: "@ =~= "\r\n  Local echo: "@);
    lemma_encode_concat("\r\nConfiguration:\r\n"@, "  Probe: "@);
    lemma_encode_concat("\r\n"@, "  Chip: "@);
    lemma_encode_concat("\r\n"@, "  Up channels:"@);
    lemma_encode_concat("\r\n"@, "  Down channel: "@);
    lemma_encode_concat("\r\n"@, "  Poll interval: "@);
    lemma_encode_concat(" ms"@, "\r\n"@);
    lemma_encode_concat(" ms"@ + "\r\n"@, "  Timestamps: "@);
    lemma_encode_concat("\r\n"@, "  Local echo: "@);
    let interval = decimal(config.poll_interval as nat);
    lemma_encode_concat(interval, " ms"@);
    let named = with_setting(
        with_setting(
            text + encode_utf8("\r\nConfiguration:\r\n"@),
            "  Probe: "@,
            config.probe@,
        ),
        "  Chip: "@,
        config.chip@,
    );
    lemma_up_specs(
        named + encode_utf8("  Up channels:"@),
        config.up_specs@,
        config.up_specs@.len() as int,
    );
    assert(config.up_specs@.take(config.up_specs@.len() as int) =~= config.up_specs@);
    let listed = text + encode_utf8("\r\nConfiguration:\r\n  Probe: "@) + encode_utf8(
        config.probe@,
    ) + encode_utf8("\r\n  Chip: "@) + encode_utf8(config.chip@) + encode_utf8(
        "\r\n  Up channels:"@,
    ) + encode_utf8(up_specs_text(config.up_specs@));
    assert(with_up_specs(
        named + encode_utf8("  Up channels:"@),
        config.up_specs@,
        config.up_specs@.len() as int,
    ) =~= listed);
    let down = match config.down_channel {
        Some(number) => decimal(number as nat),
        None => "disabled"@,
    };
    let polled = with_setting(
        with_setting(listed + encode_utf8("\r\n"@), "  Down channel: "@, down),
        "  Poll interval: "@,
        interval + " ms"@,
    );
    let interval_shown = listed + encode_utf8("\r\n  Down channel: "@) + encode_utf8(down)
        + encode_utf8("\r\n  Poll interval: "@) + encode_utf8(interval);
    assert(polled =~= interval_shown + encode_utf8(" ms"@) + encode_utf8("\r\n"@));
    assert(with_config(text, config, timestamps, local_echo) =~= interval_shown + encode_utf8(
        " ms\r\n  Timestamps: "@,
    ) + encode_utf8(switch_text(timestamps)) + encode_utf8("\r\n  Local echo: "@) + encode_utf8(
        switch_text(local_echo),
    ) + encode_utf8("\r\n"@));
}

/// Colours are used where they are asked for, and where that is left open at a
/// terminal whose user has not turned them off.
pub proof fn law_colors_are_used_as_asked(
    mode: ColorMode,
    terminal: bool,
    no_color: bool,
    color: bool,
)
    requires
        call_ensures(uses_color, (mode, terminal, no_color), color),
    ensures
        mode == ColorMode::Always ==> color,
        mode == ColorMode::Never ==> !color,
        mode == ColorMode::Auto ==> color == (terminal && !no_color),
{
}

/// A session has the settings that the options ask for. Without an up channel the
/// first one is read as a terminal, without a down channel the first one is written
/// to unless none is wanted, and without a format the log is decoded.
pub proof fn law_settings_follow_the_options(
    opts: Opts,
    probe: String,
    chip: String,
    defmt: Option<DefmtData>,
    scan_region: ScanRegion,
    automatic_scan: bool,
    config: SessionConfig,
)
    requires
        call_ensures(
            SessionConfig::from_opts,
            (opts, probe, chip, defmt, scan_region, automatic_scan),
            config,
        ),
    ensures
        opts.up@.len() > 0 ==> config.up_specs@ == opts.up@,
        opts.up@.len() == 0 ==> config.up_specs@.len() == 1 && config.up_specs@[0].index == 0
            && config.up_specs@[0].mode == ChannelEncoding::Terminal,
        opts.no_down ==> config.down_channel is None,
        !opts.no_down && opts.down is None ==> config.down_channel == Some(0usize),
        !opts.no_down ==> (opts.down matches Some(index) ==> config.down_channel == Some(
            index as usize,
        )),
        config.poll_interval == opts.poll_interval,
        config.reset == opts.reset,
        config.timestamps == opts.timestamps,
        config.color == opts.color,
        config.log == opts.log,
        config.log_per_channel == opts.log_per_channel,
        opts.log_format == Some(LogFormat::Raw) ==> config.log_format == LogFormat::Raw,
        opts.log_format != Some(LogFormat::Raw) ==> config.log_format == LogFormat::Decoded,
        config.defmt_filters is Some <==> opts.defmt_filters is Some,
        opts.defmt_filters matches Some(spec) ==> config.defmt_filters == Some(spec.0),
        config.probe == probe && config.chip == chip && config.defmt == defmt,
        config.scan_region == scan_region && config.automatic_scan == automatic_scan,
{
}

} // verus!
