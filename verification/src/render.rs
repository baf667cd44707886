//! How a session's output is laid out on the screen: time stamps, channel labels,
//! and the unfinished line that is taken back and drawn again.
use crate::channels::{
    entry_or, find_channel, law_kept_entry, law_last_entry_counts, lemma_place, lemma_same_places,
    one_each, place_of, with_entry,
};
use crate::clock::{push_stamp, stamp};
use crate::lines::{in_one_line, line_feeds};
use crate::stream::{
    fresh_stream, law_chunks_in_parts, law_line_feeds_are_lines, law_lines_are_kept_apart,
    law_no_line_without_line_feed, lemma_plain_line_feeds, lemma_plain_may_be_cut, SessionStream,
    StreamView,
};
use crate::terminal::{
    chunk_is_known, is_plain, is_seven_bit, lemma_plain_prints_visibly, may_be_cut,
    plain_is_taken_plainly, prints_visibly, terminal_actions,
};
use crate::text::{decimal, lemma_encode_concat, lines_view, push_decimal, push_str};
use vstd::prelude::*;
use vstd::utf8::*;

verus! {

/// The unfinished line at the bottom of the screen.
pub struct ForegroundLine {
    pub channel: u32,
    pub bytes: Vec<u8>,
}

impl View for ForegroundLine {
    type V = (u32, Seq<u8>);

    open spec fn view(&self) -> (u32, Seq<u8>) {
        (self.channel, self.bytes@)
    }
}

/// The unfinished line, where there is one.
pub open spec fn foreground_view(line: Option<ForegroundLine>) -> Option<(u32, Seq<u8>)> {
    match line {
        Some(line) => Some(line@),
        None => None,
    }
}

/// What is known of the screen and of the channels.
pub struct RenderView {
    pub timestamps: bool,
    pub local_echo: bool,
    pub line_start: bool,
    pub defmt_decode_warnings: u64,
    pub color: bool,
    pub channel_labels: bool,
    pub last_channel: Option<u32>,
    pub streams: Seq<(u32, StreamView)>,
    pub foreground: Option<(u32, Seq<u8>)>,
    pub interactive: bool,
}

/// The line end on the screen: an interactive one needs the carriage return.
pub open spec fn line_end(interactive: bool) -> Seq<u8> {
    if interactive {
        encode_utf8("\r\n"@)
    } else {
        encode_utf8("\n"@)
    }
}

/// The colour of a channel's label.
pub open spec fn channel_color_text(channel: u32) -> Seq<char> {
    match channel % 6 {
        0 => "\x1b[36m"@,
        1 => "\x1b[35m"@,
        2 => "\x1b[34m"@,
        3 => "\x1b[32m"@,
        4 => "\x1b[33m"@,
        _ => "\x1b[31m"@,
    }
}

/// A channel's tag: its number in brackets.
pub open spec fn channel_tag(channel: u32) -> Seq<u8> {
    encode_utf8("[ch"@) + encode_utf8(decimal(channel as nat)) + encode_utf8("] "@)
}

/// A channel's label on the screen.
pub open spec fn channel_label(channel: u32, color: bool) -> Seq<u8> {
    if color {
        encode_utf8(channel_color_text(channel)) + channel_tag(channel) + encode_utf8("\x1b[0m"@)
    } else {
        channel_tag(channel)
    }
}

impl RenderView {
    /// The output moves to a channel other than the last one shown.
    pub open spec fn switches(self, channel: Option<u32>) -> bool {
        channel is Some && self.last_channel != channel && self.channel_labels
    }

    /// A label is due.
    pub open spec fn labels(self, channel: Option<u32>) -> bool {
        self.channel_labels && channel is Some && (self.line_start || self.switches(channel))
    }

    /// What comes before a byte that is not a carriage return: the stamp at the
    /// start of a line, the label at the start of a line and at a switch of
    /// channels, then the line's colour.
    pub open spec fn prefix(self, channel: Option<u32>, wall: i64, color: Option<Seq<char>>) -> Seq<u8> {
        let stamped = if self.timestamps && self.line_start {
            stamp(wall)
        } else {
            Seq::empty()
        };
        let labelled = if self.labels(channel) {
            channel_label(channel->0, self.color)
        } else {
            Seq::empty()
        };
        let colored = if color is Some && (self.line_start || self.switches(channel)) {
            encode_utf8(color->0)
        } else {
            Seq::empty()
        };
        stamped + labelled + colored
    }

    /// Nothing is kept of the target.
    pub open spec fn reset_target(self) -> RenderView {
        RenderView {
            line_start: true,
            last_channel: None,
            streams: Seq::empty(),
            foreground: None,
            ..self
        }
    }
}

/// The screen: what is known of it, and all that has been written to it.
pub struct Screen {
    pub state: RenderView,
    pub output: Seq<u8>,
}

impl Screen {
    /// Bytes are written as they are.
    pub open spec fn write(self, bytes: Seq<u8>) -> Screen {
        Screen { output: self.output + bytes, ..self }
    }

    /// The output stands at the start of a line.
    pub open spec fn at_line_start(self) -> Screen {
        Screen { state: RenderView { line_start: true, ..self.state }, ..self }
    }

    /// A line end is written.
    pub open spec fn ends_line(self) -> Screen {
        self.write(line_end(self.state.interactive)).at_line_start()
    }

    /// One byte is shown. A carriage return is written alone and leads to the
    /// start of the line. A line feed ends the line and its colour.
    pub open spec fn byte(
        self,
        byte: u8,
        channel: Option<u32>,
        wall: i64,
        color: Option<Seq<char>>,
    ) -> Screen {
        if byte == 13 {
            self.write(seq![13u8]).at_line_start()
        } else {
            let shown = self.write(self.state.prefix(channel, wall, color)).write(
                if byte == 10 && self.state.interactive {
                    seq![13u8]
                } else {
                    Seq::empty()
                },
            ).write(seq![byte]).write(
                if byte == 10 && color is Some {
                    encode_utf8("\x1b[0m"@)
                } else {
                    Seq::empty()
                },
            );
            Screen {
                state: RenderView {
                    line_start: byte == 10,
                    last_channel: if self.state.labels(channel) {
                        channel
                    } else {
                        self.state.last_channel
                    },
                    ..self.state
                },
                ..shown
            }
        }
    }

    /// Bytes are shown one after the other.
    pub open spec fn each_byte(
        self,
        bytes: Seq<u8>,
        channel: Option<u32>,
        wall: i64,
        color: Option<Seq<char>>,
    ) -> Screen
        decreases bytes.len(),
    {
        if bytes.len() == 0 {
            self
        } else {
            self.each_byte(bytes.drop_last(), channel, wall, color).byte(
                bytes.last(),
                channel,
                wall,
                color,
            )
        }
    }

    /// Bytes are shown; a colour does not outlast them.
    pub open spec fn bytes(
        self,
        bytes: Seq<u8>,
        channel: Option<u32>,
        wall: i64,
        color: Option<Seq<char>>,
    ) -> Screen {
        let shown = self.each_byte(bytes, channel, wall, color);
        if color is Some && !shown.state.line_start {
            shown.write(encode_utf8("\x1b[0m"@))
        } else {
            shown
        }
    }

    /// The unfinished line is taken back.
    pub open spec fn erased(self) -> Screen {
        let cleared = if self.state.foreground is Some && self.state.interactive {
            self.write(encode_utf8("\r\x1b[2K"@))
        } else {
            self
        };
        Screen {
            state: RenderView {
                foreground: None,
                line_start: true,
                last_channel: None,
                ..self.state
            },
            ..cleared
        }
    }

    /// A line is drawn at the bottom of the screen and kept as the unfinished one.
    pub open spec fn drawn(self, line: (u32, Seq<u8>), wall: i64) -> Screen {
        let shown = self.bytes(line.1, Some(line.0), wall, None);
        Screen { state: RenderView { foreground: Some(line), ..shown.state }, ..shown }
    }

    /// One line that a channel's terminal output has finished. The unfinished line
    /// of another channel is drawn again below it.
    pub open spec fn finished_line(self, channel: u32, line: Seq<u8>, wall: i64) -> Screen {
        let shown = self.erased().bytes(line, Some(channel), wall, None).ends_line();
        match self.state.foreground {
            Some(saved) => if saved.0 != channel {
                shown.drawn(saved, wall)
            } else {
                shown
            },
            None => shown,
        }
    }

    /// Lines that a channel's terminal output has finished.
    pub open spec fn finished_lines(self, channel: u32, lines: Seq<Seq<u8>>, wall: i64) -> Screen
        decreases lines.len(),
    {
        if lines.len() == 0 {
            self
        } else {
            self.finished_lines(channel, lines.drop_last(), wall).finished_line(
                channel,
                lines.last(),
                wall,
            )
        }
    }

    /// The line that a channel leaves unfinished. An interactive screen shows it,
    /// unless another channel's stands there.
    pub open spec fn partial_line(self, channel: u32, partial: Seq<u8>, wall: i64) -> Screen {
        if !self.state.interactive || partial.len() == 0 {
            self
        } else {
            match self.state.foreground {
                Some(line) => if line.0 == channel {
                    self.erased().drawn((channel, partial), wall)
                } else {
                    self
                },
                None => self.drawn((channel, partial), wall),
            }
        }
    }

    /// A chunk of terminal output.
    pub open spec fn chunk(self, channel: u32, bytes: Seq<u8>, wall: i64) -> Screen {
        let stream = entry_or(self.state.streams, channel, fresh_stream());
        let after = stream.after(bytes);
        let taken = Screen {
            state: RenderView {
                streams: with_entry(self.state.streams, channel, after),
                ..self.state
            },
            ..self
        };
        taken.finished_lines(channel, stream.finished(bytes), wall).partial_line(
            channel,
            after.partial(),
            wall,
        )
    }

    /// A line end is written where the line is not at its start.
    pub open spec fn line_ended(self) -> Screen {
        if self.state.line_start {
            self
        } else {
            self.ends_line()
        }
    }

    /// A whole line that is not terminal output. The unfinished line is drawn
    /// again below it.
    pub open spec fn complete_line(
        self,
        channel: u32,
        bytes: Seq<u8>,
        wall: i64,
        color: Option<Seq<char>>,
    ) -> Screen {
        let shown = self.erased().bytes(bytes, Some(channel), wall, color).line_ended();
        match self.state.foreground {
            Some(saved) => shown.drawn(saved, wall),
            None => shown,
        }
    }

    /// The unfinished lines of the first `count` channels are written out, each
    /// as a line.
    pub open spec fn tails(self, streams: Seq<(u32, StreamView)>, count: int, wall: i64) -> Screen
        decreases count,
    {
        if count <= 0 {
            self
        } else {
            let before = self.tails(streams, count - 1, wall);
            let (channel, stream) = streams[count - 1];
            if stream.partial().len() == 0 {
                before
            } else {
                before.bytes(stream.partial(), Some(channel), wall, None).write(
                    encode_utf8("\n"@),
                ).at_line_start()
            }
        }
    }

    /// The target restarts: an interactive screen takes the unfinished line back,
    /// a redirected one gets the lines that the channels left unfinished.
    pub open spec fn before_reset(self, wall: i64) -> Screen {
        if self.state.interactive {
            self.erased()
        } else {
            self.tails(self.state.streams, self.state.streams.len() as int, wall)
        }
    }
}

/// The streams of the channels as values.
pub open spec fn streams_view(streams: Seq<(u32, SessionStream)>) -> Seq<(u32, StreamView)> {
    streams.map_values(|entry: (u32, SessionStream)| (entry.0, entry.1@))
}

/// How the session's output is shown.
pub struct SessionState {
    pub timestamps: bool,
    pub local_echo: bool,
    pub line_start: bool,
    pub defmt_decode_warnings: u64,
    pub color: bool,
    pub channel_labels: bool,
    pub last_channel: Option<u32>,
    pub streams: Vec<(u32, SessionStream)>,
    pub foreground: Option<ForegroundLine>,
    pub interactive: bool,
}

impl View for SessionState {
    type V = RenderView;

    open spec fn view(&self) -> RenderView {
        RenderView {
            timestamps: self.timestamps,
            local_echo: self.local_echo,
            line_start: self.line_start,
            defmt_decode_warnings: self.defmt_decode_warnings,
            color: self.color,
            channel_labels: self.channel_labels,
            last_channel: self.last_channel,
            streams: streams_view(self.streams@),
            foreground: foreground_view(self.foreground),
            interactive: self.interactive,
        }
    }
}

/// A state with the output written so far.
pub open spec fn screen(state: SessionState, output: Vec<u8>) -> Screen {
    Screen { state: state@, output: output@ }
}

impl SessionState {
    /// Each channel has one stream, whose line is within its limits.
    pub open spec fn wf(self) -> bool {
        &&& one_each(self.streams@)
        &&& forall|i: int| 0 <= i < self.streams@.len() ==> (#[trigger] self.streams@[i]).1.wf()
    }

    /// An interactive screen that nothing has been shown on.
    pub fn new() -> (state: Self)
        ensures
            state.wf(),
            state@ == (RenderView {
                timestamps: false,
                local_echo: false,
                line_start: true,
                defmt_decode_warnings: 0,
                color: false,
                channel_labels: false,
                last_channel: None,
                streams: Seq::empty(),
                foreground: None,
                interactive: true,
            }),
    {
        let state = SessionState {
            timestamps: false,
            local_echo: false,
            line_start: true,
            defmt_decode_warnings: 0,
            color: false,
            channel_labels: false,
            last_channel: None,
            streams: Vec::new(),
            foreground: None,
            interactive: true,
        };
        assert(state@.streams =~= Seq::<(u32, StreamView)>::empty());
        state
    }

    /// Clears all per-target rendering state after a target restart.
    pub fn reset_target(&mut self)
        ensures
            final(self).wf(),
            final(self)@ == old(self)@.reset_target(),
    {
        self.line_start = true;
        self.last_channel = None;
        self.streams = Vec::new();
        self.foreground = None;
        assert(self@.streams =~= Seq::<(u32, StreamView)>::empty());
    }
}

/// The colour of a channel's label.
pub fn channel_color(channel_idx: u32) -> (color: &'static str)
    ensures
        color@ == channel_color_text(channel_idx),
{
    match channel_idx % 6 {
        0 => "\x1b[36m",
        1 => "\x1b[35m",
        2 => "\x1b[34m",
        3 => "\x1b[32m",
        4 => "\x1b[33m",
        _ => "\x1b[31m",
    }
}

/// Writes a channel's tag.
pub fn push_channel_tag(output: &mut Vec<u8>, channel: u32)
    ensures
        final(output)@ == old(output)@ + channel_tag(channel),
{
    push_str(output, "[ch");
    push_decimal(output, channel as u64);
    push_str(output, "] ");
    assert(output@ =~= old(output)@ + channel_tag(channel));
}

/// Shows bytes that belong to no channel.
pub fn render_bytes(bytes: &[u8], wall: i64, state: &mut SessionState, output: &mut Vec<u8>)
    ensures
        screen(*final(state), *final(output)) == screen(*old(state), *old(output)).bytes(
            bytes@,
            None,
            wall,
            None,
        ),
        final(state).streams == old(state).streams,
{
    render_channel_bytes_colored(bytes, None, wall, state, output, None);
}

/// Shows bytes of a channel.
pub fn render_channel_bytes(
    bytes: &[u8],
    channel_idx: Option<u32>,
    wall: i64,
    state: &mut SessionState,
    output: &mut Vec<u8>,
)
    ensures
        screen(*final(state), *final(output)) == screen(*old(state), *old(output)).bytes(
            bytes@,
            channel_idx,
            wall,
            None,
        ),
        final(state).streams == old(state).streams,
{
    render_channel_bytes_colored(bytes, channel_idx, wall, state, output, None);
}

/// Shows bytes of a channel in a colour.
pub fn render_channel_bytes_colored(
    bytes: &[u8],
    channel_idx: Option<u32>,
    wall: i64,
    state: &mut SessionState,
    output: &mut Vec<u8>,
    line_color: Option<&'static str>,
)
    ensures
        screen(*final(state), *final(output)) == screen(*old(state), *old(output)).bytes(
            bytes@,
            channel_idx,
            wall,
            color_view(line_color),
        ),
        final(state).streams == old(state).streams,
{
    let ghost before = screen(*state, *output);
    let ghost color = color_view(line_color);
    let mut index: usize = 0;
    assert(bytes@.take(0) =~= Seq::<u8>::empty());
    while index < bytes.len()
        invariant
            index <= bytes@.len(),
            color == color_view(line_color),
            state.streams == old(state).streams,
            screen(*state, *output) == before.each_byte(
                bytes@.take(index as int),
                channel_idx,
                wall,
                color,
            ),
        decreases bytes@.len() - index,
    {
        assert(bytes@.take(index + 1).drop_last() =~= bytes@.take(index as int));
        render_byte(bytes[index], channel_idx, wall, state, output, line_color);
        index += 1;
    }
    assert(bytes@.take(bytes@.len() as int) =~= bytes@);
    if line_color.is_some() && !state.line_start {
        push_str(output, "\x1b[0m");
    }
}

/// A colour as text.
pub open spec fn color_view(color: Option<&'static str>) -> Option<Seq<char>> {
    match color {
        Some(text) => Some(text@),
        None => None,
    }
}

fn render_byte(
    byte: u8,
    channel_idx: Option<u32>,
    wall: i64,
    state: &mut SessionState,
    output: &mut Vec<u8>,
    line_color: Option<&'static str>,
)
    ensures
        screen(*final(state), *final(output)) == screen(*old(state), *old(output)).byte(
            byte,
            channel_idx,
            wall,
            color_view(line_color),
        ),
        final(state).streams == old(state).streams,
{
    let ghost before = screen(*state, *output);
    if byte == 13 {
        output.push(13);
        state.line_start = true;
        assert(output@ =~= before.output + seq![13u8]);
        return ;
    }
    render_prefix(channel_idx, wall, state, output, line_color);
    let ghost prefixed = output@;
    if byte == 10 {
        if state.interactive {
            output.push(13);
        }
        state.line_start = true;
    } else {
        state.line_start = false;
    }
    assert(output@ =~= prefixed + (if byte == 10 && before.state.interactive {
        seq![13u8]
    } else {
        Seq::empty()
    }));
    let ghost opened = output@;
    output.push(byte);
    assert(output@ =~= opened + seq![byte]);
    let ghost shown = output@;
    if byte == 10 && line_color.is_some() {
        push_str(output, "\x1b[0m");
    }
    assert(output@ =~= shown + (if byte == 10 && line_color is Some {
        encode_utf8("\x1b[0m"@)
    } else {
        Seq::empty()
    }));
}

fn render_prefix(
    channel_idx: Option<u32>,
    wall: i64,
    state: &mut SessionState,
    output: &mut Vec<u8>,
    line_color: Option<&'static str>,
)
    ensures
        final(output)@ == old(output)@ + old(state)@.prefix(
            channel_idx,
            wall,
            color_view(line_color),
        ),
        *final(state) == (SessionState {
            last_channel: if old(state)@.labels(channel_idx) {
                channel_idx
            } else {
                old(state).last_channel
            },
            ..*old(state)
        }),
{
    let ghost before = state@;
    let channel_switch = match channel_idx {
        Some(channel) => {
            let other = match state.last_channel {
                Some(last) => last != channel,
                None => true,
            };
            other && state.channel_labels
        },
        None => false,
    };
    assert(channel_switch == before.switches(channel_idx));
    if state.timestamps && state.line_start {
        push_stamp(output, wall);
    }
    let ghost stamped = output@;
    let ghost stamps = if before.timestamps && before.line_start {
        stamp(wall)
    } else {
        Seq::empty()
    };
    assert(stamped =~= old(output)@ + stamps);
    if state.channel_labels && (state.line_start || channel_switch) {
        if let Some(channel) = channel_idx {
            push_channel_label(output, channel, state.color);
            state.last_channel = Some(channel);
        }
    }
    let ghost labelled = output@;
    let ghost labels = if before.labels(channel_idx) {
        channel_label(channel_idx->0, before.color)
    } else {
        Seq::empty()
    };
    assert(labelled =~= stamped + labels);
    if let Some(text) = line_color {
        if state.line_start || channel_switch {
            push_str(output, text);
        }
    }
    let ghost colors = if line_color is Some && (before.line_start || before.switches(
        channel_idx,
    )) {
        encode_utf8(line_color->0@)
    } else {
        Seq::empty()
    };
    assert(output@ =~= labelled + colors);
    assert(before.prefix(channel_idx, wall, color_view(line_color)) == stamps + labels + colors);
    assert(old(output)@ + stamps + labels + colors =~= old(output)@ + (stamps + labels + colors));
}

/// Writes a channel's label.
fn push_channel_label(output: &mut Vec<u8>, channel: u32, color: bool)
    ensures
        final(output)@ == old(output)@ + channel_label(channel, color),
{
    if color {
        push_str(output, channel_color(channel));
    }
    push_channel_tag(output, channel);
    if color {
        push_str(output, "\x1b[0m");
    }
    assert(output@ =~= old(output)@ + channel_label(channel, color));
}

/// Takes the unfinished line back from the screen.
pub fn erase_foreground(state: &mut SessionState, output: &mut Vec<u8>) -> (line: Option<
    ForegroundLine,
>)
    ensures
        screen(*final(state), *final(output)) == screen(*old(state), *old(output)).erased(),
        foreground_view(line) == old(state)@.foreground,
        final(state).streams == old(state).streams,
{
    let foreground = state.foreground.take();
    if foreground.is_some() && state.interactive {
        push_str(output, "\r\x1b[2K");
    }
    state.line_start = true;
    state.last_channel = None;
    foreground
}

/// Hands a chunk of terminal output to its channel's stream.
fn consume_chunk(channel: u32, bytes: &[u8], state: &mut SessionState) -> (result: (
    Vec<Vec<u8>>,
    Vec<u8>,
))
    requires
        old(state).wf(),
    ensures
        final(state).wf(),
        ({
            let stream = entry_or(old(state)@.streams, channel, fresh_stream());
            &&& final(state)@ == (RenderView {
                streams: with_entry(old(state)@.streams, channel, stream.after(bytes@)),
                ..old(state)@
            })
            &&& lines_view(result.0@) == stream.finished(bytes@)
            &&& result.1@ == stream.after(bytes@).partial()
            &&& chunk_is_known(stream.feed, bytes@)
        }),
{
    let ghost before = state@;
    let ghost kept = state.streams@;
    proof {
        lemma_same_places(kept, before.streams, channel, kept.len() as int);
        lemma_place(kept, channel, kept.len() as int);
    }
    let place = match find_channel(&state.streams, channel) {
        Some(index) => index,
        None => {
            let index = state.streams.len();
            state.streams.push((channel, SessionStream::new()));
            index
        },
    };
    let ghost stream = entry_or(before.streams, channel, fresh_stream());
    assert(state.streams@[place as int].1@ == stream);
    let ghost opened = state.streams@;
    let result = state.streams[place].1.consume(bytes);
    assert(state.streams@ == opened.update(place as int, state.streams@[place as int]));
    assert(state@.streams =~= with_entry(before.streams, channel, stream.after(bytes@)));
    result
}

/// Shows a chunk of a channel's terminal output: the lines that it finishes, then,
/// on an interactive screen, the line that it leaves unfinished.
pub fn render_terminal_chunk(
    channel: u32,
    bytes: &[u8],
    wall: i64,
    state: &mut SessionState,
    output: &mut Vec<u8>,
)
    requires
        old(state).wf(),
    ensures
        final(state).wf(),
        screen(*final(state), *final(output)) == screen(*old(state), *old(output)).chunk(
            channel,
            bytes@,
            wall,
        ),
        chunk_is_known(
            entry_or(old(state)@.streams, channel, fresh_stream()).feed,
            bytes@,
        ),
{
    let (complete, partial) = consume_chunk(channel, bytes, state);
    let ghost taken = screen(*state, *output);
    let ghost streams = state.streams;
    let ghost lines = lines_view(complete@);
    let mut index: usize = 0;
    assert(lines.take(0) =~= Seq::<Seq<u8>>::empty());
    while index < complete.len()
        invariant
            index <= complete@.len(),
            lines == lines_view(complete@),
            state.streams == streams,
            screen(*state, *output) == taken.finished_lines(
                channel,
                lines.take(index as int),
                wall,
            ),
        decreases complete@.len() - index,
    {
        assert(lines.take(index + 1).drop_last() =~= lines.take(index as int));
        assert(lines.take(index + 1).last() == complete@[index as int]@);
        render_finished_line(channel, &complete[index], wall, state, output);
        index += 1;
    }
    assert(lines.take(lines.len() as int) =~= lines);
    if state.interactive && partial.len() > 0 {
        let shown_channel = match &state.foreground {
            Some(line) => Some(line.channel),
            None => None,
        };
        match shown_channel {
            Some(shown) => {
                if shown != channel {
                    return ;
                }
                erase_foreground(state, output);
            },
            None => {},
        }
        render_channel_bytes(&partial, Some(channel), wall, state, output);
        state.foreground = Some(ForegroundLine { channel, bytes: partial });
    }
}

fn render_finished_line(
    channel: u32,
    line: &Vec<u8>,
    wall: i64,
    state: &mut SessionState,
    output: &mut Vec<u8>,
)
    ensures
        screen(*final(state), *final(output)) == screen(*old(state), *old(output)).finished_line(
            channel,
            line@,
            wall,
        ),
        final(state).streams == old(state).streams,
{
    let foreground = erase_foreground(state, output);
    render_channel_bytes(line, Some(channel), wall, state, output);
    push_line_end(output, state.interactive);
    state.line_start = true;
    if let Some(saved) = foreground {
        if saved.channel != channel {
            render_channel_bytes(&saved.bytes, Some(saved.channel), wall, state, output);
            state.foreground = Some(saved);
        }
    }
}

fn push_line_end(output: &mut Vec<u8>, interactive: bool)
    ensures
        final(output)@ == old(output)@ + line_end(interactive),
{
    if interactive {
        push_str(output, "\r\n");
    } else {
        push_str(output, "\n");
    }
}

/// Shows a whole line that is not terminal output.
pub fn render_complete_line(
    channel: u32,
    bytes: &[u8],
    wall: i64,
    color: Option<&'static str>,
    state: &mut SessionState,
    output: &mut Vec<u8>,
)
    ensures
        screen(*final(state), *final(output)) == screen(*old(state), *old(output)).complete_line(
            channel,
            bytes@,
            wall,
            color_view(color),
        ),
        final(state).streams == old(state).streams,
{
    let foreground = erase_foreground(state, output);
    render_channel_bytes_colored(bytes, Some(channel), wall, state, output, color);
    if !state.line_start {
        push_line_end(output, state.interactive);
        state.line_start = true;
    }
    if let Some(saved) = foreground {
        render_channel_bytes(&saved.bytes, Some(saved.channel), wall, state, output);
        state.foreground = Some(saved);
    }
}

/// Finishes the screen before the target restarts.
pub fn finish_renderer_before_reset(wall: i64, state: &mut SessionState, output: &mut Vec<u8>)
    ensures
        screen(*final(state), *final(output)) == screen(*old(state), *old(output)).before_reset(wall),
        final(state).streams == old(state).streams,
{
    if state.interactive {
        erase_foreground(state, output);
        return ;
    }
    let ghost before = screen(*state, *output);
    let ghost streams = before.state.streams;
    let mut index: usize = 0;
    while index < state.streams.len()
        invariant
            index <= state.streams@.len(),
            streams == streams_view(state.streams@),
            state.streams == old(state).streams,
            screen(*state, *output) == before.tails(streams, index as int, wall),
        decreases state.streams@.len() - index,
    {
        assert(streams[index as int] == (
            state.streams@[index as int].0,
            state.streams@[index as int].1@,
        ));
        let channel = state.streams[index].0;
        let bytes = state.streams[index].1.visible_line();
        if bytes.len() > 0 {
            render_channel_bytes(&bytes, Some(channel), wall, state, output);
            push_str(output, "\n");
            state.line_start = true;
        }
        index += 1;
    }
}

/// Showing bytes changes the place on the screen and nothing else.
pub proof fn law_settings_are_kept(
    screen: Screen,
    bytes: Seq<u8>,
    channel: Option<u32>,
    wall: i64,
    color: Option<Seq<char>>,
)
    ensures
        screen.bytes(bytes, channel, wall, color).state == (RenderView {
            line_start: screen.bytes(bytes, channel, wall, color).state.line_start,
            last_channel: screen.bytes(bytes, channel, wall, color).state.last_channel,
            ..screen.state
        }),
    decreases bytes.len(),
{
    if bytes.len() > 0 {
        law_settings_are_kept(screen, bytes.drop_last(), channel, wall, color);
    }
}

/// What comes in two parts is shown as it is in one.
pub proof fn law_rendering_in_parts(
    screen: Screen,
    first: Seq<u8>,
    second: Seq<u8>,
    channel: Option<u32>,
    wall: i64,
)
    ensures
        screen.bytes(first + second, channel, wall, None) == screen.bytes(
            first,
            channel,
            wall,
            None,
        ).bytes(second, channel, wall, None),
    decreases second.len(),
{
    if second.len() == 0 {
        assert(first + second =~= first);
    } else {
        law_rendering_in_parts(screen, first, second.drop_last(), channel, wall);
        assert((first + second).drop_last() =~= first + second.drop_last());
    }
}

/// A redirected screen without stamps and labels gets the bytes as they are.
pub proof fn law_redirected_bytes_are_unchanged(
    screen: Screen,
    bytes: Seq<u8>,
    channel: Option<u32>,
    wall: i64,
)
    requires
        !screen.state.interactive,
        !screen.state.timestamps,
        !screen.state.channel_labels,
    ensures
        screen.bytes(bytes, channel, wall, None).output == screen.output + bytes,
    decreases bytes.len(),
{
    if bytes.len() == 0 {
        assert(screen.output + bytes =~= screen.output);
    } else {
        law_redirected_bytes_are_unchanged(screen, bytes.drop_last(), channel, wall);
        law_settings_are_kept(screen, bytes.drop_last(), channel, wall, None);
        assert(screen.bytes(bytes, channel, wall, None).output =~= screen.output + bytes);
    }
}

/// Text without line ends gets one prefix, in front, wherever the channel's output
/// is cut: stamp and label at the start of a line, the label at a switch of
/// channels, nothing in the middle of a line.
pub proof fn law_text_gets_one_prefix(
    screen: Screen,
    text: Seq<u8>,
    channel: Option<u32>,
    wall: i64,
)
    requires
        text.len() > 0,
        forall|i: int| 0 <= i < text.len() ==> #[trigger] text[i] != 10 && text[i] != 13,
    ensures
        screen.bytes(text, channel, wall, None).output == screen.output + screen.state.prefix(
            channel,
            wall,
            None,
        ) + text,
        !screen.bytes(text, channel, wall, None).state.line_start,
        !screen.bytes(text, channel, wall, None).state.switches(channel),
    decreases text.len(),
{
    let prefix = screen.state.prefix(channel, wall, None);
    let shorter = text.drop_last();
    let before = screen.bytes(shorter, channel, wall, None);
    law_settings_are_kept(screen, shorter, channel, wall, None);
    if shorter.len() == 0 {
        assert(before == screen);
        assert(text =~= seq![text.last()]);
    } else {
        law_text_gets_one_prefix(screen, shorter, channel, wall);
        assert(before.state.prefix(channel, wall, None) =~= Seq::<u8>::empty());
    }
    assert(screen.bytes(text, channel, wall, None).output =~= screen.output + prefix + text);
}

/// A whole line goes above the unfinished one, which stays as it is.
pub proof fn law_complete_line_keeps_the_unfinished_one(
    screen: Screen,
    channel: u32,
    bytes: Seq<u8>,
    wall: i64,
    color: Option<Seq<char>>,
)
    ensures
        screen.complete_line(channel, bytes, wall, color).state == (RenderView {
            line_start: screen.complete_line(channel, bytes, wall, color).state.line_start,
            last_channel: screen.complete_line(channel, bytes, wall, color).state.last_channel,
            ..screen.state
        }),
        screen.state.foreground is None ==> screen.complete_line(
            channel,
            bytes,
            wall,
            color,
        ).state.line_start,
{
    law_settings_are_kept(screen.erased(), bytes, Some(channel), wall, color);
    let shown = screen.erased().bytes(bytes, Some(channel), wall, color).line_ended();
    if let Some(saved) = screen.state.foreground {
        law_settings_are_kept(shown, saved.1, Some(saved.0), wall, None);
    }
}

impl Screen {
    /// The screen with other streams.
    pub open spec fn with_streams(self, streams: Seq<(u32, StreamView)>) -> Screen {
        Screen { state: RenderView { streams, ..self.state }, ..self }
    }
}

proof fn lemma_bytes_with_streams(
    screen: Screen,
    streams: Seq<(u32, StreamView)>,
    bytes: Seq<u8>,
    channel: Option<u32>,
    wall: i64,
)
    ensures
        screen.with_streams(streams).bytes(bytes, channel, wall, None) == screen.bytes(
            bytes,
            channel,
            wall,
            None,
        ).with_streams(streams),
    decreases bytes.len(),
{
    if bytes.len() > 0 {
        lemma_bytes_with_streams(screen, streams, bytes.drop_last(), channel, wall);
    }
}

proof fn lemma_lines_keep_settings(screen: Screen, channel: u32, lines: Seq<Seq<u8>>, wall: i64)
    requires
        screen.state.foreground is None,
    ensures
        ({
            let after = screen.finished_lines(channel, lines, wall);
            after.state == (RenderView {
                line_start: after.state.line_start,
                last_channel: after.state.last_channel,
                ..screen.state
            })
        }),
    decreases lines.len(),
{
    if lines.len() > 0 {
        lemma_lines_keep_settings(screen, channel, lines.drop_last(), wall);
        let before = screen.finished_lines(channel, lines.drop_last(), wall);
        law_settings_are_kept(before.erased(), lines.last(), Some(channel), wall, None);
    }
}

proof fn lemma_line_with_streams(
    screen: Screen,
    streams: Seq<(u32, StreamView)>,
    channel: u32,
    line: Seq<u8>,
    wall: i64,
)
    requires
        screen.state.foreground is None,
    ensures
        screen.with_streams(streams).finished_line(channel, line, wall) == screen.finished_line(
            channel,
            line,
            wall,
        ).with_streams(streams),
{
    let erased = screen.erased();
    lemma_bytes_with_streams(erased, streams, line, Some(channel), wall);
    assert(screen.with_streams(streams).erased() == erased.with_streams(streams));
}

proof fn lemma_lines_with_streams(
    screen: Screen,
    streams: Seq<(u32, StreamView)>,
    channel: u32,
    lines: Seq<Seq<u8>>,
    wall: i64,
)
    requires
        screen.state.foreground is None,
    ensures
        screen.with_streams(streams).finished_lines(channel, lines, wall) == screen.finished_lines(
            channel,
            lines,
            wall,
        ).with_streams(streams),
    decreases lines.len(),
{
    if lines.len() > 0 {
        lemma_lines_with_streams(screen, streams, channel, lines.drop_last(), wall);
        lemma_lines_keep_settings(screen, channel, lines.drop_last(), wall);
        let before = screen.finished_lines(channel, lines.drop_last(), wall);
        lemma_line_with_streams(before, streams, channel, lines.last(), wall);
    }
}

proof fn lemma_lines_in_parts(
    screen: Screen,
    channel: u32,
    first: Seq<Seq<u8>>,
    second: Seq<Seq<u8>>,
    wall: i64,
)
    ensures
        screen.finished_lines(channel, first + second, wall) == screen.finished_lines(
            channel,
            first,
            wall,
        ).finished_lines(channel, second, wall),
    decreases second.len(),
{
    if second.len() == 0 {
        assert(first + second =~= first);
    } else {
        lemma_lines_in_parts(screen, channel, first, second.drop_last(), wall);
        assert((first + second).drop_last() =~= first + second.drop_last());
    }
}

/// A redirected screen that shows no unfinished line, with the channel's lines kept
/// apart, as it is from its start on.
pub open spec fn is_redirected(screen: Screen, channel: u32) -> bool {
    &&& !screen.state.interactive
    &&& screen.state.foreground is None
    &&& one_each(screen.state.streams)
    &&& entry_or(screen.state.streams, channel, fresh_stream()).keeps_lines_apart()
}

/// A well-formed state that is not interactive and shows no unfinished line belongs
/// to a redirected screen, for every channel.
pub proof fn law_redirected_states(state: SessionState, output: Vec<u8>, channel: u32)
    requires
        state.wf(),
        !state.interactive,
        state.foreground is None,
    ensures
        is_redirected(screen(state, output), channel),
{
    let streams = screen(state, output).state.streams;
    lemma_place(streams, channel, streams.len() as int);
    if let Some(index) = place_of(streams, channel) {
        assert(streams[index].1 == state.streams@[index].1@);
    }
    assert forall|i: int, j: int| 0 <= i < j < streams.len() implies (#[trigger] streams[i]).0 != (
    #[trigger] streams[j]).0 by {
        assert(streams[i].0 == state.streams@[i].0 && streams[j].0 == state.streams@[j].0);
    }
}

/// Output that comes in two chunks reaches a redirected screen as it does in one:
/// the same bytes are written, and the channel's stream stands the same. The bytes
/// may be cut wherever the terminal's requests may, and the first chunk must have
/// its line feeds executed.
pub proof fn law_redirected_output_in_parts(
    screen: Screen,
    channel: u32,
    first: Seq<u8>,
    second: Seq<u8>,
    wall: i64,
)
    requires
        is_redirected(screen, channel),
        ({
            let stream = entry_or(screen.state.streams, channel, fresh_stream());
            &&& may_be_cut(stream.feed, first, second)
            &&& stream.executes_line_feeds(first)
            &&& prints_visibly(terminal_actions(stream.feed, first))
        }),
    ensures
        ({
            let parts = screen.chunk(channel, first, wall).chunk(channel, second, wall);
            let whole = screen.chunk(channel, first + second, wall);
            let after_parts = entry_or(parts.state.streams, channel, fresh_stream());
            let after_whole = entry_or(whole.state.streams, channel, fresh_stream());
            &&& parts.output == whole.output
            &&& parts.state == (RenderView { streams: parts.state.streams, ..whole.state })
            &&& after_parts.terminal == after_whole.terminal
            &&& after_parts.raw == after_whole.raw
        }),
        is_redirected(screen.chunk(channel, first, wall), channel),
{
    let streams = screen.state.streams;
    let stream = entry_or(streams, channel, fresh_stream());
    let middle = stream.after(first);
    let half_streams = with_entry(streams, channel, middle);
    let parts_streams = with_entry(streams, channel, middle.after(second));
    let whole_streams = with_entry(streams, channel, stream.after(first + second));
    law_chunks_in_parts(stream, first, second);
    law_lines_are_kept_apart(stream, first);
    law_kept_entry(streams, channel, middle, channel, fresh_stream());
    law_kept_entry(streams, channel, middle.after(second), channel, fresh_stream());
    law_kept_entry(streams, channel, stream.after(first + second), channel, fresh_stream());
    law_last_entry_counts(streams, channel, middle, middle.after(second));
    let lines = stream.finished(first);
    let more = middle.finished(second);
    let shown = screen.finished_lines(channel, lines, wall);
    lemma_lines_with_streams(screen, half_streams, channel, lines, wall);
    lemma_lines_keep_settings(screen, channel, lines, wall);
    let half = screen.chunk(channel, first, wall);
    assert(half == shown.with_streams(half_streams));
    lemma_lines_with_streams(shown, parts_streams, channel, more, wall);
    lemma_lines_keep_settings(shown, channel, more, wall);
    let all = shown.finished_lines(channel, more, wall);
    assert(half.chunk(channel, second, wall) == all.with_streams(parts_streams));
    lemma_lines_in_parts(screen, channel, lines, more, wall);
    lemma_lines_with_streams(screen, whole_streams, channel, lines + more, wall);
    assert(screen.chunk(channel, first + second, wall) == all.with_streams(whole_streams));
}

/// Lines, each with a line feed behind it.
pub open spec fn ended(lines: Seq<Seq<u8>>) -> Seq<u8>
    decreases lines.len(),
{
    if lines.len() == 0 {
        Seq::empty()
    } else {
        ended(lines.drop_last()) + lines.last() + seq![10u8]
    }
}

proof fn lemma_bytes_are_added(
    screen: Screen,
    bytes: Seq<u8>,
    channel: Option<u32>,
    wall: i64,
    color: Option<Seq<char>>,
)
    ensures
        screen.output.is_prefix_of(screen.each_byte(bytes, channel, wall, color).output),
    decreases bytes.len(),
{
    if bytes.len() > 0 {
        lemma_bytes_are_added(screen, bytes.drop_last(), channel, wall, color);
    }
}

proof fn lemma_redirected_lines(screen: Screen, channel: u32, lines: Seq<Seq<u8>>, wall: i64)
    requires
        !screen.state.interactive,
        screen.state.foreground is None,
    ensures
        ({
            let after = screen.finished_lines(channel, lines, wall).output;
            &&& screen.output.is_prefix_of(after)
            &&& lines.len() > 0 ==> after.len() > screen.output.len() && after.last() == 10
            &&& !screen.state.timestamps && !screen.state.channel_labels ==> after == screen.output
                + ended(lines)
        }),
    decreases lines.len(),
{
    reveal_strlit("\n");
    is_ascii_chars_encode_utf8("\n"@);
    assert(encode_utf8("\n"@) =~= seq![10u8]);
    if lines.len() == 0 {
        assert(screen.output + ended(lines) =~= screen.output);
    } else {
        let fewer = lines.drop_last();
        let line = lines.last();
        lemma_redirected_lines(screen, channel, fewer, wall);
        lemma_lines_keep_settings(screen, channel, fewer, wall);
        let before = screen.finished_lines(channel, fewer, wall);
        lemma_bytes_are_added(before.erased(), line, Some(channel), wall, None);
        law_settings_are_kept(before.erased(), line, Some(channel), wall, None);
        let after = screen.finished_lines(channel, lines, wall).output;
        let shown = before.erased().bytes(line, Some(channel), wall, None).output;
        assert(after == shown + seq![10u8]);
        if !screen.state.timestamps && !screen.state.channel_labels {
            law_redirected_bytes_are_unchanged(before.erased(), line, Some(channel), wall);
            assert(screen.output + ended(fewer) + line + seq![10u8] =~= screen.output + ended(lines));
        }
    }
}

/// A redirected screen gets whole lines only: nothing where a chunk finishes no
/// line, else bytes that a line feed ends. Without stamps and labels it gets the
/// finished lines as they are, each with a line feed behind it.
pub proof fn law_redirected_lines_come_whole(
    screen: Screen,
    channel: u32,
    bytes: Seq<u8>,
    wall: i64,
)
    requires
        !screen.state.interactive,
        screen.state.foreground is None,
    ensures
        ({
            let lines = entry_or(screen.state.streams, channel, fresh_stream()).finished(bytes);
            let after = screen.chunk(channel, bytes, wall).output;
            &&& screen.output.is_prefix_of(after)
            &&& lines.len() == 0 ==> after == screen.output
            &&& lines.len() > 0 ==> after.len() > screen.output.len() && after.last() == 10
            &&& !screen.state.timestamps && !screen.state.channel_labels ==> after == screen.output
                + ended(lines)
        }),
{
    let stream = entry_or(screen.state.streams, channel, fresh_stream());
    let streams = with_entry(screen.state.streams, channel, stream.after(bytes));
    lemma_redirected_lines(
        screen.with_streams(streams),
        channel,
        stream.finished(bytes),
        wall,
    );
    lemma_lines_keep_settings(
        screen.with_streams(streams),
        channel,
        stream.finished(bytes),
        wall,
    );
}

proof fn lemma_ended_lines(lines: Seq<Seq<u8>>)
    requires
        forall|i: int| 0 <= i < lines.len() ==> in_one_line(#[trigger] lines[i]),
    ensures
        line_feeds(ended(lines)) == lines.len(),
    decreases lines.len(),
{
    if lines.len() > 0 {
        lemma_ended_lines(lines.drop_last());
        lemma_line_feeds_of_line(ended(lines.drop_last()), lines.last());
        let whole = ended(lines.drop_last()) + lines.last() + seq![10u8];
        assert(whole.drop_last() =~= ended(lines.drop_last()) + lines.last());
    }
}

proof fn lemma_line_feeds_of_line(before: Seq<u8>, line: Seq<u8>)
    requires
        in_one_line(line),
    ensures
        line_feeds(before + line) == line_feeds(before),
    decreases line.len(),
{
    if line.len() == 0 {
        assert(before + line =~= before);
    } else {
        lemma_line_feeds_of_line(before, line.drop_last());
        assert((before + line).drop_last() =~= before + line.drop_last());
        assert((before + line).last() == line.last());
    }
}

/// A chunk of output writes to a redirected screen whole lines only: one line for
/// each of its line feeds, where all are executed, and nothing where it has none.
pub proof fn law_redirected_output_comes_in_lines(
    screen: Screen,
    channel: u32,
    bytes: Seq<u8>,
    wall: i64,
)
    requires
        is_redirected(screen, channel),
        chunk_is_known(entry_or(screen.state.streams, channel, fresh_stream()).feed, bytes),
    ensures
        ({
            let stream = entry_or(screen.state.streams, channel, fresh_stream());
            let lines = stream.finished(bytes);
            let after = screen.chunk(channel, bytes, wall).output;
            &&& screen.output.is_prefix_of(after)
            &&& lines.len() <= line_feeds(bytes)
            &&& stream.executes_line_feeds(bytes) ==> lines.len() == line_feeds(bytes)
            &&& lines.len() == 0 ==> after == screen.output
            &&& lines.len() > 0 ==> after.len() > screen.output.len() && after.last() == 10
            &&& !screen.state.timestamps && !screen.state.channel_labels ==> after == screen.output
                + ended(lines) && line_feeds(ended(lines)) == lines.len()
        }),
        is_redirected(screen.chunk(channel, bytes, wall), channel),
{
    let stream = entry_or(screen.state.streams, channel, fresh_stream());
    let streams = with_entry(screen.state.streams, channel, stream.after(bytes));
    law_lines_are_kept_apart(stream, bytes);
    law_no_line_without_line_feed(stream, bytes);
    if stream.executes_line_feeds(bytes) {
        law_line_feeds_are_lines(stream, bytes);
    }
    law_kept_entry(screen.state.streams, channel, stream.after(bytes), channel, fresh_stream());
    lemma_lines_keep_settings(
        screen.with_streams(streams),
        channel,
        stream.finished(bytes),
        wall,
    );
    law_redirected_lines_come_whole(screen, channel, bytes, wall);
    lemma_ended_lines(stream.finished(bytes));
}

/// Plain output that comes in two chunks writes to a redirected screen what it
/// writes in one.
pub proof fn law_plain_redirected_output_in_parts(
    screen: Screen,
    channel: u32,
    first: Seq<u8>,
    second: Seq<u8>,
    wall: i64,
)
    requires
        is_redirected(screen, channel),
        is_plain(first),
        is_plain(second),
        ({
            let feed = entry_or(screen.state.streams, channel, fresh_stream()).feed;
            &&& forall|i: int| 0 <= i < feed.len() ==> is_plain(#[trigger] feed[i])
            &&& plain_is_taken_plainly(feed, first)
            &&& plain_is_taken_plainly(feed.push(first), second)
            &&& plain_is_taken_plainly(feed, first + second)
        }),
    ensures
        screen.chunk(channel, first, wall).chunk(channel, second, wall).output == screen.chunk(
            channel,
            first + second,
            wall,
        ).output,
{
    let stream = entry_or(screen.state.streams, channel, fresh_stream());
    let feed = stream.feed;
    assert(is_plain(first + second));
    assert forall|i: int| 0 <= i < feed.push(first).len() implies is_plain(
        #[trigger] feed.push(first)[i],
    ) by {
        if i < feed.len() {
            assert(is_plain(feed[i]));
        }
    }
    lemma_plain_may_be_cut(feed, first, second);
    lemma_plain_line_feeds(first);
    lemma_plain_prints_visibly(first);
    law_redirected_output_in_parts(screen, channel, first, second, wall);
}

/// ASCII output, with its colours and cursor movements, that comes in two chunks
/// writes to a redirected screen what it writes in one, wherever it is cut and
/// whatever came before. The first chunk must have its line feeds executed, as it has
/// where it holds none.
pub proof fn law_ascii_redirected_output_in_parts(
    screen: Screen,
    channel: u32,
    first: Seq<u8>,
    second: Seq<u8>,
    wall: i64,
)
    requires
        is_redirected(screen, channel),
        is_seven_bit(first),
        is_seven_bit(second),
        ({
            let stream = entry_or(screen.state.streams, channel, fresh_stream());
            &&& chunk_is_known(stream.feed, first)
            &&& chunk_is_known(stream.feed, first + second)
            &&& line_feeds(first) == 0 || stream.executes_line_feeds(first)
        }),
    ensures
        ({
            let parts = screen.chunk(channel, first, wall).chunk(channel, second, wall);
            let whole = screen.chunk(channel, first + second, wall);
            let after_parts = entry_or(parts.state.streams, channel, fresh_stream());
            let after_whole = entry_or(whole.state.streams, channel, fresh_stream());
            &&& parts.output == whole.output
            &&& parts.state == (RenderView { streams: parts.state.streams, ..whole.state })
            &&& after_parts.terminal == after_whole.terminal
            &&& after_parts.raw == after_whole.raw
        }),
{
    let stream = entry_or(screen.state.streams, channel, fresh_stream());
    assert(is_seven_bit(first + second));
    assert(may_be_cut(stream.feed, first, second));
    law_no_line_without_line_feed(stream, first);
    law_lines_are_kept_apart(stream, first);
    law_redirected_output_in_parts(screen, channel, first, second, wall);
}

/// The unfinished line that stands on the screen changes only by its own channel's
/// output.
pub proof fn law_unfinished_line_is_not_displaced(
    screen: Screen,
    channel: u32,
    bytes: Seq<u8>,
    wall: i64,
)
    requires
        screen.state.foreground matches Some(line) && line.0 != channel,
    ensures
        screen.chunk(channel, bytes, wall).state.foreground == screen.state.foreground,
{
    let stream = entry_or(screen.state.streams, channel, fresh_stream());
    let taken = Screen {
        state: RenderView {
            streams: with_entry(screen.state.streams, channel, stream.after(bytes)),
            ..screen.state
        },
        ..screen
    };
    lemma_other_foreground(taken, channel, stream.finished(bytes), wall);
}

proof fn lemma_other_foreground(screen: Screen, channel: u32, lines: Seq<Seq<u8>>, wall: i64)
    requires
        screen.state.foreground matches Some(line) && line.0 != channel,
    ensures
        screen.finished_lines(channel, lines, wall).state.foreground == screen.state.foreground,
    decreases lines.len(),
{
    if lines.len() > 0 {
        lemma_other_foreground(screen, channel, lines.drop_last(), wall);
    }
}

/// A channel's label, as it must read: the tag `[chN] ` with the channel's number,
/// between the channel's colour and its end where colours are used.
pub open spec fn written_label(channel: u32, color: bool) -> Seq<u8> {
    let tag = encode_utf8("[ch"@ + decimal(channel as nat) + "] "@);
    if color {
        encode_utf8(channel_color_text(channel)) + tag + encode_utf8("\x1b[0m"@)
    } else {
        tag
    }
}

proof fn lemma_written_label(channel: u32, color: bool)
    ensures
        channel_tag(channel) == encode_utf8("[ch"@ + decimal(channel as nat) + "] "@),
        channel_label(channel, color) == written_label(channel, color),
{
    lemma_encode_concat("[ch"@ + decimal(channel as nat), "] "@);
    lemma_encode_concat("[ch"@, decimal(channel as nat));
}

/// A channel's tag holds the channel's number.
pub proof fn law_tags_hold_the_number(channel: u32)
    ensures
        channel_tag(channel) == encode_utf8("[ch"@ + decimal(channel as nat) + "] "@),
{
    lemma_written_label(channel, false);
}

/// Six channels in a row have six colours, and then the colours come again.
pub proof fn law_colors_go_round(channel: u32, other: u32)
    ensures
        channel_color_text(channel) == channel_color_text(other) <==> channel % 6 == other % 6,
        channel_color_text(channel).len() == 5,
        channel_color_text(channel)[0] == '\u{1b}' && channel_color_text(channel)[1] == '['
            && channel_color_text(channel)[2] == '3' && channel_color_text(channel)[4] == 'm',
        channel % 6 == 0 ==> channel_color_text(channel)[3] == '6',
        channel % 6 == 1 ==> channel_color_text(channel)[3] == '5',
        channel % 6 == 2 ==> channel_color_text(channel)[3] == '4',
        channel % 6 == 3 ==> channel_color_text(channel)[3] == '2',
        channel % 6 == 4 ==> channel_color_text(channel)[3] == '3',
        channel % 6 == 5 ==> channel_color_text(channel)[3] == '1',
{
    reveal_strlit("\x1b[36m");
    reveal_strlit("\x1b[35m");
    reveal_strlit("\x1b[34m");
    reveal_strlit("\x1b[32m");
    reveal_strlit("\x1b[33m");
    reveal_strlit("\x1b[31m");
    assert(channel_color_text(channel)[3] == channel_color_text(other)[3] <==> channel % 6 == other
        % 6);
}

/// Text has before it the stamp of the moment where it starts a line and stamps are
/// on, whatever else is shown, and then the channel's label where labels are on and
/// it starts a line or another channel was shown last. Nothing else comes before it,
/// and nothing behind it.
pub proof fn law_text_gets_stamp_and_label(
    screen: Screen,
    text: Seq<u8>,
    channel: Option<u32>,
    wall: i64,
)
    requires
        text.len() > 0,
        forall|i: int| 0 <= i < text.len() ==> #[trigger] text[i] != 10 && text[i] != 13,
    ensures
        ({
            let stamped = if screen.state.timestamps && screen.state.line_start {
                stamp(wall)
            } else {
                Seq::empty()
            };
            let labelled = if channel is Some && screen.state.channel_labels && (
            screen.state.line_start || screen.state.last_channel != channel) {
                written_label(channel->0, screen.state.color)
            } else {
                Seq::empty()
            };
            &&& screen.bytes(text, channel, wall, None).output == screen.output + stamped + labelled
                + text
            &&& channel is Some && screen.state.channel_labels && (screen.state.line_start
                || screen.state.last_channel != channel) ==> screen.bytes(
                text,
                channel,
                wall,
                None,
            ).state.last_channel == channel
        }),
    decreases text.len(),
{
    law_text_gets_one_prefix(screen, text, channel, wall);
    if channel is Some {
        lemma_written_label(channel->0, screen.state.color);
    }
    let shorter = text.drop_last();
    let before = screen.bytes(shorter, channel, wall, None);
    if shorter.len() > 0 {
        law_text_gets_stamp_and_label(screen, shorter, channel, wall);
        law_text_gets_one_prefix(screen, shorter, channel, wall);
        law_settings_are_kept(screen, shorter, channel, wall, None);
        if channel is Some && screen.state.channel_labels && (screen.state.line_start
            || screen.state.last_channel != channel) {
            assert(before.state.last_channel == channel);
        }
    } else {
        assert(before == screen);
    }
    let stamped = if screen.state.timestamps && screen.state.line_start {
        stamp(wall)
    } else {
        Seq::empty()
    };
    let labelled = if channel is Some && screen.state.channel_labels && (screen.state.line_start
        || screen.state.last_channel != channel) {
        written_label(channel->0, screen.state.color)
    } else {
        Seq::empty()
    };
    assert(screen.state.prefix(channel, wall, None) =~= stamped + labelled);
    assert(screen.bytes(text, channel, wall, None).output =~= screen.output + stamped + labelled
        + text);
}

/// A line feed goes to the screen as one, with a carriage return before it where the
/// screen is interactive, and leads to the start of a line. A carriage return goes
/// alone and leads there too.
pub proof fn law_line_ends_are_written(
    screen: Screen,
    channel: Option<u32>,
    wall: i64,
)
    requires
        !screen.state.line_start,
        channel is None || !screen.state.channel_labels || screen.state.last_channel == channel,
    ensures
        screen.byte(10u8, channel, wall, None).output == screen.output + (
        if screen.state.interactive {
            seq![13u8, 10u8]
        } else {
            seq![10u8]
        }),
        screen.byte(10u8, channel, wall, None).state == (RenderView {
            line_start: true,
            ..screen.state
        }),
        screen.byte(13u8, channel, wall, None).output == screen.output.push(13u8),
        screen.byte(13u8, channel, wall, None).state == (RenderView {
            line_start: true,
            ..screen.state
        }),
{
    assert(screen.state.prefix(channel, wall, None) =~= Seq::<u8>::empty());
    assert(screen.byte(10u8, channel, wall, None).output =~= screen.output + (
    if screen.state.interactive {
        seq![13u8, 10u8]
    } else {
        seq![10u8]
    }));
    assert(screen.byte(13u8, channel, wall, None).output =~= screen.output.push(13u8));
}

/// A carriage return is written alone wherever the output stands.
pub proof fn law_carriage_returns_are_written_alone(
    screen: Screen,
    channel: Option<u32>,
    wall: i64,
    color: Option<Seq<char>>,
)
    ensures
        screen.byte(13u8, channel, wall, color).output == screen.output.push(13u8),
        screen.byte(13u8, channel, wall, color).state == (RenderView {
            line_start: true,
            ..screen.state
        }),
{
    assert(screen.byte(13u8, channel, wall, color).output =~= screen.output.push(13u8));
}

/// A colour stands between stamp and label and the text of a line, and ends behind
/// the line feed.
pub proof fn law_colored_lines(
    screen: Screen,
    text: Seq<u8>,
    channel: u32,
    wall: i64,
    color: Seq<char>,
)
    requires
        screen.state.line_start,
        text.len() > 0,
        forall|i: int| 0 <= i < text.len() ==> #[trigger] text[i] != 10 && text[i] != 13,
    ensures
        ({
            let after = screen.bytes(text.push(10u8), Some(channel), wall, Some(color));
            let stamped = if screen.state.timestamps {
                stamp(wall)
            } else {
                Seq::empty()
            };
            let labelled = if screen.state.channel_labels {
                written_label(channel, screen.state.color)
            } else {
                Seq::empty()
            };
            &&& after.output == screen.output + stamped + labelled + encode_utf8(color) + text + (
            if screen.state.interactive {
                seq![13u8, 10u8]
            } else {
                seq![10u8]
            }) + encode_utf8("\x1b[0m"@)
            &&& after.state.line_start
        }),
{
    let some = Some(channel);
    let stamped = if screen.state.timestamps {
        stamp(wall)
    } else {
        Seq::empty()
    };
    let labelled = if screen.state.channel_labels {
        written_label(channel, screen.state.color)
    } else {
        Seq::empty()
    };
    lemma_colored_text(screen, text, channel, wall, color);
    let before = screen.each_byte(text, some, wall, Some(color));
    let line = text.push(10u8);
    assert(line.drop_last() =~= text);
    assert(before.state.prefix(some, wall, Some(color)) =~= Seq::<u8>::empty());
    let ending = if screen.state.interactive {
        seq![13u8, 10u8]
    } else {
        seq![10u8]
    };
    assert(screen.bytes(line, some, wall, Some(color)).output =~= screen.output + stamped + labelled
        + encode_utf8(color) + text + ending + encode_utf8("\x1b[0m"@));
}

proof fn lemma_colored_text(
    screen: Screen,
    text: Seq<u8>,
    channel: u32,
    wall: i64,
    color: Seq<char>,
)
    requires
        screen.state.line_start,
        text.len() > 0,
        forall|i: int| 0 <= i < text.len() ==> #[trigger] text[i] != 10 && text[i] != 13,
    ensures
        ({
            let after = screen.each_byte(text, Some(channel), wall, Some(color));
            let stamped = if screen.state.timestamps {
                stamp(wall)
            } else {
                Seq::empty()
            };
            let labelled = if screen.state.channel_labels {
                written_label(channel, screen.state.color)
            } else {
                Seq::empty()
            };
            &&& after.output == screen.output + stamped + labelled + encode_utf8(color) + text
            &&& !after.state.line_start
            &&& screen.state.channel_labels ==> after.state.last_channel == Some(channel)
            &&& after.state.channel_labels == screen.state.channel_labels
            &&& after.state.interactive == screen.state.interactive
        }),
    decreases text.len(),
{
    let some = Some(channel);
    let stamped = if screen.state.timestamps {
        stamp(wall)
    } else {
        Seq::empty()
    };
    let labelled = if screen.state.channel_labels {
        written_label(channel, screen.state.color)
    } else {
        Seq::empty()
    };
    lemma_written_label(channel, screen.state.color);
    let shorter = text.drop_last();
    if shorter.len() > 0 {
        lemma_colored_text(screen, shorter, channel, wall, color);
        let before = screen.each_byte(shorter, some, wall, Some(color));
        assert(before.state.prefix(some, wall, Some(color)) =~= Seq::<u8>::empty());
    } else {
        assert(text =~= seq![text.last()]);
        assert(screen.state.prefix(some, wall, Some(color)) =~= stamped + labelled + encode_utf8(
            color,
        ));
    }
    assert(screen.each_byte(text, some, wall, Some(color)).output =~= screen.output + stamped
        + labelled + encode_utf8(color) + text);
}

/// Taking the unfinished line back writes a carriage return and the sequence that
/// erases the line, on an interactive screen that shows one, and nothing else. The
/// line is no longer kept, the output stands at the start of a line, and no channel
/// counts as the last.
pub proof fn law_unfinished_lines_are_taken_back(screen: Screen)
    ensures
        screen.erased().output == screen.output + (if screen.state.interactive
            && screen.state.foreground is Some {
            encode_utf8("\r\x1b[2K"@)
        } else {
            Seq::empty()
        }),
        screen.erased().state == (RenderView {
            foreground: None,
            line_start: true,
            last_channel: None,
            ..screen.state
        }),
{
    assert(screen.output + Seq::<u8>::empty() =~= screen.output);
}

/// What stands before a line that starts at the start of a line: the stamp, then the
/// label.
pub open spec fn line_front(state: RenderView, channel: u32, wall: i64) -> Seq<u8> {
    (if state.timestamps {
        stamp(wall)
    } else {
        Seq::empty()
    }) + (if state.channel_labels {
        written_label(channel, state.color)
    } else {
        Seq::empty()
    })
}

proof fn lemma_line_front(screen: Screen, text: Seq<u8>, channel: u32, wall: i64)
    requires
        screen.state.line_start,
        text.len() > 0,
        forall|i: int| 0 <= i < text.len() ==> #[trigger] text[i] != 10 && text[i] != 13,
    ensures
        screen.bytes(text, Some(channel), wall, None).output == screen.output + line_front(
            screen.state,
            channel,
            wall,
        ) + text,
        !screen.bytes(text, Some(channel), wall, None).state.line_start,
{
    law_text_gets_stamp_and_label(screen, text, Some(channel), wall);
    law_text_gets_one_prefix(screen, text, Some(channel), wall);
    assert(screen.bytes(text, Some(channel), wall, None).output =~= screen.output + line_front(
        screen.state,
        channel,
        wall,
    ) + text);
}

/// A finished line is written with its stamp and label before it and a line end
/// behind it. On an interactive screen the unfinished line is taken back first; that
/// of another channel is drawn again below, with its own stamp and label, and stays
/// the unfinished one.
pub proof fn law_finished_lines_are_written(
    screen: Screen,
    channel: u32,
    line: Seq<u8>,
    wall: i64,
)
    requires
        line.len() > 0,
        forall|i: int| 0 <= i < line.len() ==> #[trigger] line[i] != 10 && line[i] != 13,
        screen.state.foreground matches Some(saved) ==> saved.1.len() > 0 && (forall|i: int|
            0 <= i < saved.1.len() ==> #[trigger] saved.1[i] != 10 && saved.1[i] != 13),
    ensures
        ({
            let after = screen.finished_line(channel, line, wall);
            let written = screen.output + (if screen.state.interactive
                && screen.state.foreground is Some {
                encode_utf8("\r\x1b[2K"@)
            } else {
                Seq::empty()
            }) + line_front(screen.state, channel, wall) + line + (if screen.state.interactive {
                encode_utf8("\r\n"@)
            } else {
                encode_utf8("\n"@)
            });
            match screen.state.foreground {
                Some(saved) => if saved.0 != channel {
                    &&& after.output == written + line_front(screen.state, saved.0, wall) + saved.1
                    &&& after.state.foreground == Some(saved)
                } else {
                    &&& after.output == written
                    &&& after.state.foreground is None
                },
                None => after.output == written && after.state.foreground is None,
            }
        }),
{
    law_unfinished_lines_are_taken_back(screen);
    let erased = screen.erased();
    lemma_line_front(erased, line, channel, wall);
    law_settings_are_kept(erased, line, Some(channel), wall, None);
    let shown = erased.bytes(line, Some(channel), wall, None).ends_line();
    if let Some(saved) = screen.state.foreground {
        if saved.0 != channel {
            lemma_line_front(shown, saved.1, saved.0, wall);
        }
    }
}

/// An empty finished line is written as a line end alone.
pub proof fn law_empty_lines_are_line_ends(screen: Screen, channel: u32, wall: i64)
    requires
        screen.state.foreground is None,
    ensures
        screen.finished_line(channel, Seq::empty(), wall).output == screen.output + (
        if screen.state.interactive {
            encode_utf8("\r\n"@)
        } else {
            encode_utf8("\n"@)
        }),
{
}

/// On an interactive screen the line that a channel leaves unfinished is drawn, in
/// place of what was drawn of it before, and is kept as the unfinished one; where
/// another channel's stands there it is not drawn. A redirected screen gets nothing
/// of it.
pub proof fn law_unfinished_lines_are_drawn(
    screen: Screen,
    channel: u32,
    partial: Seq<u8>,
    wall: i64,
)
    requires
        partial.len() > 0,
        forall|i: int| 0 <= i < partial.len() ==> #[trigger] partial[i] != 10 && partial[i] != 13,
        screen.state.foreground is None ==> screen.state.line_start,
    ensures
        ({
            let after = screen.partial_line(channel, partial, wall);
            &&& !screen.state.interactive ==> after == screen
            &&& screen.partial_line(channel, Seq::empty(), wall) == screen
            &&& screen.state.interactive ==> match screen.state.foreground {
                None => after.output == screen.output + line_front(screen.state, channel, wall)
                    + partial && after.state.foreground == Some((channel, partial)),
                Some(line) => if line.0 == channel {
                    after.output == screen.output + encode_utf8("\r\x1b[2K"@) + line_front(
                        screen.state,
                        channel,
                        wall,
                    ) + partial && after.state.foreground == Some((channel, partial))
                } else {
                    after == screen
                },
            }
        }),
{
    law_unfinished_lines_are_taken_back(screen);
    if screen.state.interactive {
        if screen.state.foreground is None {
            lemma_line_front(screen, partial, channel, wall);
        } else {
            lemma_line_front(screen.erased(), partial, channel, wall);
        }
    }
}

/// A whole line with its own line feed is written with its stamp and label before
/// it; the unfinished line, of whatever channel, is taken back first, drawn again
/// below and kept.
pub proof fn law_whole_lines_are_written(screen: Screen, channel: u32, text: Seq<u8>, wall: i64)
    requires
        text.len() > 0,
        forall|i: int| 0 <= i < text.len() ==> #[trigger] text[i] != 10 && text[i] != 13,
        screen.state.foreground matches Some(saved) ==> saved.1.len() > 0 && (forall|i: int|
            0 <= i < saved.1.len() ==> #[trigger] saved.1[i] != 10 && saved.1[i] != 13),
    ensures
        ({
            let after = screen.complete_line(channel, text.push(10u8), wall, None);
            let written = screen.output + (if screen.state.interactive
                && screen.state.foreground is Some {
                encode_utf8("\r\x1b[2K"@)
            } else {
                Seq::empty()
            }) + line_front(screen.state, channel, wall) + text + (if screen.state.interactive {
                seq![13u8, 10u8]
            } else {
                seq![10u8]
            });
            &&& after.state.foreground == screen.state.foreground
            &&& match screen.state.foreground {
                Some(saved) => after.output == written + line_front(screen.state, saved.0, wall)
                    + saved.1,
                None => after.output == written,
            }
        }),
{
    law_unfinished_lines_are_taken_back(screen);
    let erased = screen.erased();
    lemma_line_front(erased, text, channel, wall);
    law_settings_are_kept(erased, text, Some(channel), wall, None);
    law_text_gets_one_prefix(erased, text, Some(channel), wall);
    let before = erased.bytes(text, Some(channel), wall, None);
    let line = text.push(10u8);
    assert(line.drop_last() =~= text);
    law_text_gets_stamp_and_label(erased, text, Some(channel), wall);
    law_line_ends_are_written(before, Some(channel), wall);
    let shown = erased.bytes(line, Some(channel), wall, None);
    assert(shown == before.byte(10u8, Some(channel), wall, None));
    if let Some(saved) = screen.state.foreground {
        lemma_line_front(shown, saved.1, saved.0, wall);
        law_settings_are_kept(shown, saved.1, Some(saved.0), wall, None);
    }
}

/// The same with a colour, which stands before the text and ends behind the line
/// feed.
pub proof fn law_whole_colored_lines_are_written(
    screen: Screen,
    channel: u32,
    text: Seq<u8>,
    wall: i64,
    color: Seq<char>,
)
    requires
        text.len() > 0,
        forall|i: int| 0 <= i < text.len() ==> #[trigger] text[i] != 10 && text[i] != 13,
        screen.state.foreground is None,
    ensures
        screen.complete_line(channel, text.push(10u8), wall, Some(color)).output == screen.output
            + line_front(screen.state, channel, wall) + encode_utf8(color) + text + (
        if screen.state.interactive {
            seq![13u8, 10u8]
        } else {
            seq![10u8]
        }) + encode_utf8("\x1b[0m"@),
{
    let erased = screen.erased();
    law_colored_lines(erased, text, channel, wall, color);
    assert(screen.complete_line(channel, text.push(10u8), wall, Some(color)).output
        =~= screen.output + line_front(screen.state, channel, wall) + encode_utf8(color) + text + (
    if screen.state.interactive {
        seq![13u8, 10u8]
    } else {
        seq![10u8]
    }) + encode_utf8("\x1b[0m"@));
}

/// Before the target restarts, an interactive screen only takes the unfinished line
/// back; a redirected one gets the unfinished line of each channel that has one,
/// each as a line with its stamp and label.
pub proof fn law_unfinished_lines_are_not_lost(
    screen: Screen,
    channel: u32,
    stream: StreamView,
    wall: i64,
)
    requires
        screen.state.streams == seq![(channel, stream)],
        screen.state.line_start,
        forall|i: int|
            0 <= i < stream.partial().len() ==> #[trigger] stream.partial()[i] != 10
                && stream.partial()[i] != 13,
    ensures
        screen.state.interactive ==> screen.before_reset(wall) == screen.erased(),
        !screen.state.interactive && stream.partial().len() == 0 ==> screen.before_reset(wall)
            == screen,
        !screen.state.interactive && stream.partial().len() > 0 ==> screen.before_reset(
            wall,
        ).output == screen.output + line_front(screen.state, channel, wall) + stream.partial()
            + encode_utf8("\n"@),
{
    reveal_with_fuel(Screen::tails, 3);
    if !screen.state.interactive && stream.partial().len() > 0 {
        lemma_line_front(screen, stream.partial(), channel, wall);
    }
}

/// One more channel's unfinished line goes behind those of the others.
pub proof fn law_unfinished_lines_go_in_order(
    screen: Screen,
    streams: Seq<(u32, StreamView)>,
    count: int,
    wall: i64,
)
    requires
        0 < count <= streams.len(),
        screen.state.line_start,
        forall|i: int|
            0 <= i < streams[count - 1].1.partial().len()
                ==> #[trigger] streams[count - 1].1.partial()[i] != 10
                && streams[count - 1].1.partial()[i] != 13,
    ensures
        ({
            let before = screen.tails(streams, count - 1, wall);
            let (channel, stream) = streams[count - 1];
            &&& before.state.line_start
            &&& screen.tails(streams, count, wall).output == before.output + (
            if stream.partial().len() == 0 {
                Seq::empty()
            } else {
                line_front(before.state, channel, wall) + stream.partial() + encode_utf8("\n"@)
            })
        }),
    decreases count,
{
    lemma_tails_end_lines(screen, streams, count - 1, wall);
    let before = screen.tails(streams, count - 1, wall);
    let (channel, stream) = streams[count - 1];
    if stream.partial().len() > 0 {
        lemma_line_front(before, stream.partial(), channel, wall);
        assert(screen.tails(streams, count, wall).output =~= before.output + (line_front(
            before.state,
            channel,
            wall,
        ) + stream.partial() + encode_utf8("\n"@)));
    } else {
        assert(before.output + Seq::<u8>::empty() =~= before.output);
    }
}

proof fn lemma_tails_end_lines(
    screen: Screen,
    streams: Seq<(u32, StreamView)>,
    count: int,
    wall: i64,
)
    requires
        screen.state.line_start,
    ensures
        screen.tails(streams, count, wall).state.line_start,
    decreases count,
{
    if count > 0 {
        lemma_tails_end_lines(screen, streams, count - 1, wall);
    }
}

/// A target that restarts leaves nothing behind: no stream, no unfinished line, no
/// last channel; the settings stay.
pub proof fn law_restarts_leave_the_settings(state: RenderView)
    ensures
        state.reset_target() == (RenderView {
            streams: Seq::empty(),
            foreground: None,
            last_channel: None,
            line_start: true,
            ..state
        }),
{
}

/// A chunk goes to its own channel's stream, the lines that it finishes are written
/// in order, and then the line that it leaves unfinished is drawn.
pub proof fn law_chunks_go_to_their_channel(
    screen: Screen,
    channel: u32,
    other: u32,
    bytes: Seq<u8>,
    wall: i64,
)
    requires
        one_each(screen.state.streams),
        screen.state.foreground is None,
        !screen.state.interactive,
    ensures
        ({
            let stream = entry_or(screen.state.streams, channel, fresh_stream());
            let after = screen.chunk(channel, bytes, wall).state.streams;
            &&& entry_or(after, channel, fresh_stream()) == stream.after(bytes)
            &&& other != channel ==> entry_or(after, other, fresh_stream()) == entry_or(
                screen.state.streams,
                other,
                fresh_stream(),
            )
        }),
{
    let stream = entry_or(screen.state.streams, channel, fresh_stream());
    let streams = with_entry(screen.state.streams, channel, stream.after(bytes));
    law_kept_entry(screen.state.streams, channel, stream.after(bytes), other, fresh_stream());
    lemma_lines_keep_settings(
        screen.with_streams(streams),
        channel,
        stream.finished(bytes),
        wall,
    );
}

/// A colour ends with the text also where no line feed ends it.
pub proof fn law_colors_end_with_the_text(
    screen: Screen,
    text: Seq<u8>,
    channel: u32,
    wall: i64,
    color: Seq<char>,
)
    requires
        screen.state.line_start,
        text.len() > 0,
        forall|i: int| 0 <= i < text.len() ==> #[trigger] text[i] != 10 && text[i] != 13,
    ensures
        screen.bytes(text, Some(channel), wall, Some(color)).output == screen.output + line_front(
            screen.state,
            channel,
            wall,
        ) + encode_utf8(color) + text + encode_utf8("\x1b[0m"@),
{
    lemma_colored_text(screen, text, channel, wall, color);
    let stamped = if screen.state.timestamps {
        stamp(wall)
    } else {
        Seq::empty()
    };
    let labelled = if screen.state.channel_labels {
        written_label(channel, screen.state.color)
    } else {
        Seq::empty()
    };
    assert(screen.output + stamped + labelled =~= screen.output + line_front(
        screen.state,
        channel,
        wall,
    ));
}

/// Finished lines are written in their order, each as a line.
pub proof fn law_finished_lines_go_in_order(
    screen: Screen,
    channel: u32,
    first: Seq<Seq<u8>>,
    line: Seq<u8>,
    second: Seq<Seq<u8>>,
    wall: i64,
)
    ensures
        screen.finished_lines(channel, first + second, wall) == screen.finished_lines(
            channel,
            first,
            wall,
        ).finished_lines(channel, second, wall),
        screen.finished_lines(channel, seq![line], wall) == screen.finished_line(
            channel,
            line,
            wall,
        ),
    decreases second.len(),
{
    reveal_with_fuel(Screen::finished_lines, 2);
    assert(seq![line].drop_last() =~= Seq::<Seq<u8>>::empty());
    if second.len() == 0 {
        assert(first + second =~= first);
    } else {
        law_finished_lines_go_in_order(screen, channel, first, line, second.drop_last(), wall);
        assert((first + second).drop_last() =~= first + second.drop_last());
    }
}

/// A chunk on an interactive screen shows the lines that it finishes and then, in
/// place of what stood there of the channel's own, the line that it leaves
/// unfinished, which is kept as the unfinished one.
pub proof fn law_chunks_show_what_is_unfinished(
    screen: Screen,
    channel: u32,
    bytes: Seq<u8>,
    wall: i64,
)
    requires
        screen.state.interactive,
        screen.state.foreground matches Some(line) ==> line.0 == channel,
        screen.state.foreground is None ==> screen.state.line_start,
        ({
            let partial = entry_or(screen.state.streams, channel, fresh_stream()).after(
                bytes,
            ).partial();
            forall|i: int|
                0 <= i < partial.len() ==> #[trigger] partial[i] != 10 && partial[i] != 13
        }),
    ensures
        ({
            let stream = entry_or(screen.state.streams, channel, fresh_stream());
            let lines = stream.finished(bytes);
            let partial = stream.after(bytes).partial();
            let written = screen.with_streams(
                with_entry(screen.state.streams, channel, stream.after(bytes)),
            ).finished_lines(channel, lines, wall);
            let after = screen.chunk(channel, bytes, wall);
            &&& partial.len() == 0 ==> after == written
            &&& partial.len() > 0 ==> after.state.foreground == Some((channel, partial))
            &&& partial.len() > 0 && lines.len() > 0 ==> after.output == written.output
                + line_front(screen.state, channel, wall) + partial
            &&& partial.len() > 0 && lines.len() == 0 ==> after.output == screen.output + (
            if screen.state.foreground is Some {
                encode_utf8("\r\x1b[2K"@)
            } else {
                Seq::empty()
            }) + line_front(screen.state, channel, wall) + partial
        }),
{
    let stream = entry_or(screen.state.streams, channel, fresh_stream());
    let lines = stream.finished(bytes);
    let partial = stream.after(bytes).partial();
    let taken = screen.with_streams(
        with_entry(screen.state.streams, channel, stream.after(bytes)),
    );
    let written = taken.finished_lines(channel, lines, wall);
    lemma_own_lines(taken, channel, lines, wall);
    if partial.len() > 0 {
        law_unfinished_lines_are_drawn(written, channel, partial, wall);
        if lines.len() == 0 && screen.state.foreground is None {
            assert(screen.output + Seq::<u8>::empty() =~= screen.output);
        }
    }
}

proof fn lemma_own_lines(screen: Screen, channel: u32, lines: Seq<Seq<u8>>, wall: i64)
    requires
        screen.state.foreground matches Some(line) ==> line.0 == channel,
    ensures
        ({
            let after = screen.finished_lines(channel, lines, wall);
            &&& lines.len() == 0 ==> after == screen
            &&& lines.len() > 0 ==> after.state == (RenderView {
                foreground: None,
                line_start: true,
                last_channel: after.state.last_channel,
                ..screen.state
            })
        }),
    decreases lines.len(),
{
    if lines.len() > 0 {
        lemma_own_lines(screen, channel, lines.drop_last(), wall);
        let before = screen.finished_lines(channel, lines.drop_last(), wall);
        law_settings_are_kept(before.erased(), lines.last(), Some(channel), wall, None);
    }
}

} // verus!
