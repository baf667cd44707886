//! Where a session's output goes: the screen and the log.
use crate::channels::one_each;
use crate::cli::LogFormat;
use crate::clock::stamp;
use crate::decode::{DecodedFrame, FrameView, OutputView};
use crate::filter::{
    filter_level, filters_view, law_deciding_filter_sets_the_level,
    law_unfiltered_modules_are_shown, level_enabled, level_name, level_text, minimum_level,
    module_view, rank, Filter, FilterView, Level,
};
use crate::lines::joined;
use crate::logger::{
    content, law_channels_have_their_files, law_text_lines_are_logged,
    law_unfinished_lines_are_written, pending_text, stream_endings, text_endings, LogView, Logger,
};
use crate::render::{
    color_view, finish_renderer_before_reset, law_complete_line_keeps_the_unfinished_one,
    law_whole_colored_lines_are_written, law_whole_lines_are_written, line_front,
    render_complete_line, render_terminal_chunk, RenderView, Screen, SessionState,
};
use crate::text::{decimal, lemma_encode_concat, push_decimal, push_str};
use vstd::prelude::*;
use vstd::utf8::*;

verus! {

/// Screen, log and filters of a session.
pub struct ContextView {
    pub screen: Screen,
    pub log: Option<LogView>,
    pub include_channel: bool,
    pub filters: Option<Seq<FilterView>>,
}

/// The colour of a message, by its level.
pub open spec fn level_color(level: Option<Level>) -> Option<Seq<char>> {
    match level {
        Some(Level::Error) => Some("\x1b[31m"@),
        Some(Level::Warn) => Some("\x1b[33m"@),
        Some(Level::Debug) => Some("\x1b[2m"@),
        Some(Level::Trace) => Some("\x1b[2m"@),
        _ => None,
    }
}

/// The line that shows a message: its time stamp in brackets, its level, its text.
pub open spec fn frame_line(frame: FrameView) -> Seq<u8> {
    let stamped = match frame.timestamp {
        Some(timestamp) => encode_utf8("["@) + encode_utf8(timestamp) + encode_utf8("] "@),
        None => Seq::empty(),
    };
    let leveled = match frame.level {
        Some(level) => stamped + encode_utf8(level_text(level)) + encode_utf8(" "@),
        None => stamped,
    };
    leveled + encode_utf8(frame.message) + encode_utf8("\n"@)
}

/// The line that shows a warning, with its number.
pub open spec fn warning_line(number: u64, warning: Seq<char>) -> Seq<u8> {
    encode_utf8("[defmt warning #"@) + encode_utf8(decimal(number as nat)) + encode_utf8("] "@)
        + encode_utf8(warning) + encode_utf8("\n"@)
}

impl ContextView {
    /// Plain text goes to the log.
    pub open spec fn log_text(self, channel: u32, bytes: Seq<u8>, wall: i64) -> ContextView {
        ContextView {
            log: match self.log {
                Some(log) => Some(log.write_text(channel, bytes, self.include_channel, wall)),
                None => None,
            },
            ..self
        }
    }

    /// Bytes go to a raw log as they came.
    pub open spec fn log_raw(self, channel: u32, bytes: Seq<u8>) -> ContextView {
        ContextView {
            log: match self.log {
                Some(log) => Some(log.write_raw(channel, bytes)),
                None => None,
            },
            ..self
        }
    }

    /// A chunk of terminal output goes to log and screen.
    pub open spec fn terminal_event(self, channel: u32, bytes: Seq<u8>, wall: i64) -> ContextView {
        ContextView {
            log: match self.log {
                Some(log) => Some(log.write_terminal(channel, bytes, self.include_channel, wall)),
                None => None,
            },
            screen: self.screen.chunk(channel, bytes, wall),
            ..self
        }
    }

    /// A message passes the filters. One without a level always does.
    pub open spec fn passes(self, frame: FrameView) -> bool {
        match (frame.level, self.filters) {
            (Some(level), Some(filters)) => rank(level) >= rank(
                minimum_level(filters, frame.module),
            ),
            _ => true,
        }
    }

    /// A message that passes the filters goes to log and screen.
    pub open spec fn defmt_frame(self, channel: u32, frame: FrameView, wall: i64) -> ContextView {
        if !self.passes(frame) {
            self
        } else {
            let color = if self.screen.state.color {
                level_color(frame.level)
            } else {
                None
            };
            ContextView {
                screen: self.screen.complete_line(channel, frame_line(frame), wall, color),
                ..self.log_text(channel, frame_line(frame), wall)
            }
        }
    }

    /// A warning is counted and goes to log and screen.
    pub open spec fn defmt_warning(self, channel: u32, warning: Seq<char>, wall: i64) -> ContextView {
        let number = (self.screen.state.defmt_decode_warnings + 1) as u64;
        let counted = Screen {
            state: RenderView { defmt_decode_warnings: number, ..self.screen.state },
            ..self.screen
        };
        let line = warning_line(number, warning);
        ContextView {
            screen: counted.complete_line(channel, line, wall, None),
            ..self.log_text(channel, line, wall)
        }
    }

    /// What a decoder hands out goes to log and screen.
    pub open spec fn defmt_output(self, channel: u32, output: OutputView, wall: i64) -> ContextView {
        match output {
            OutputView::Frame(frame) => self.defmt_frame(channel, frame, wall),
            OutputView::Warning(warning) => self.defmt_warning(channel, warning, wall),
        }
    }

    /// All that a decoder hands out goes to log and screen, in order.
    pub open spec fn defmt_outputs(
        self,
        channel: u32,
        outputs: Seq<OutputView>,
        wall: i64,
    ) -> ContextView
        decreases outputs.len(),
    {
        if outputs.len() == 0 {
            self
        } else {
            self.defmt_outputs(channel, outputs.drop_last(), wall).defmt_output(
                channel,
                outputs.last(),
                wall,
            )
        }
    }

    /// Nothing is kept of a target that restarts: what is unfinished is written
    /// out, on the screen and in the log.
    pub open spec fn target_restarted(self, wall: i64) -> ContextView {
        let finished = self.screen.before_reset(wall);
        ContextView {
            screen: Screen { state: finished.state.reset_target(), ..finished },
            log: match self.log {
                Some(log) => Some(log.tails(wall, seq![10u8]).forgotten()),
                None => None,
            },
            ..self
        }
    }

    /// A text is written to the screen, which then stands at the start of a line.
    pub open spec fn notice(self, text: Seq<u8>) -> ContextView {
        ContextView { screen: self.screen.write(text).at_line_start(), ..self }
    }
}

/// Bundled rendering targets passed through polling, commands, and reattach.
pub struct OutputContext<'t> {
    pub state: SessionState,
    pub logger: Option<Logger>,
    /// The lines of the log carry the channel's tag.
    pub include_channel: bool,
    pub filters: Option<&'t Vec<Filter>>,
    pub output: Vec<u8>,
}

/// A log, where there is one.
pub open spec fn optional_log(logger: Option<Logger>) -> Option<LogView> {
    match logger {
        Some(logger) => Some(logger@),
        None => None,
    }
}

/// Filters, where there are some.
pub open spec fn optional_filters(filters: Option<&Vec<Filter>>) -> Option<Seq<FilterView>> {
    match filters {
        Some(filters) => Some(filters_view(filters@)),
        None => None,
    }
}

impl<'t> View for OutputContext<'t> {
    type V = ContextView;

    open spec fn view(&self) -> ContextView {
        ContextView {
            screen: Screen { state: self.state@, output: self.output@ },
            log: optional_log(self.logger),
            include_channel: self.include_channel,
            filters: optional_filters(self.filters),
        }
    }
}

impl<'t> OutputContext<'t> {
    /// Screen and log are well-formed.
    pub open spec fn wf(self) -> bool {
        &&& self.state.wf()
        &&& match self.logger {
            Some(logger) => logger.wf(),
            None => true,
        }
    }

    /// Takes the output that is to be written to the screen.
    pub fn take_output(&mut self) -> (output: Vec<u8>)
        ensures
            output@ == old(self)@.screen.output,
            final(self)@ == (ContextView {
                screen: Screen { output: Seq::empty(), ..old(self)@.screen },
                ..old(self)@
            }),
            old(self).wf() ==> final(self).wf(),
    {
        let mut output: Vec<u8> = Vec::new();
        output.append(&mut self.output);
        assert(output@ =~= old(self).output@);
        output
    }

    /// Writes out what is unfinished and keeps nothing of the target.
    pub fn restart_target(&mut self, wall: i64)
        requires
            old(self).wf(),
        ensures
            final(self).wf(),
            final(self)@ == old(self)@.target_restarted(wall),
    {
        finish_renderer_before_reset(wall, &mut self.state, &mut self.output);
        self.state.reset_target();
        match &mut self.logger {
            Some(logger) => logger.reset(wall),
            None => {},
        }
    }

    /// Logs bytes as they came.
    pub fn log_raw(&mut self, channel: u32, bytes: &[u8])
        requires
            old(self).wf(),
        ensures
            final(self).wf(),
            final(self)@ == old(self)@.log_raw(channel, bytes@),
            final(self).state == old(self).state,
    {
        match &mut self.logger {
            Some(logger) => logger.write_raw(channel, bytes),
            None => {},
        }
    }

    fn log_text(&mut self, channel: u32, bytes: &[u8], wall: i64)
        requires
            old(self).wf(),
        ensures
            final(self).wf(),
            final(self)@ == old(self)@.log_text(channel, bytes@, wall),
            final(self).state == old(self).state,
    {
        let include_channel = self.include_channel;
        match &mut self.logger {
            Some(logger) => logger.write_text(channel, bytes, include_channel, wall),
            None => {},
        }
    }

    /// Shows and logs a chunk of a channel's terminal output.
    pub fn render_terminal_event(&mut self, channel: u32, bytes: &[u8], wall: i64)
        requires
            old(self).wf(),
        ensures
            final(self).wf(),
            final(self)@ == old(self)@.terminal_event(channel, bytes@, wall),
    {
        let include_channel = self.include_channel;
        match &mut self.logger {
            Some(logger) => logger.write_terminal(channel, bytes, include_channel, wall),
            None => {},
        }
        render_terminal_chunk(channel, bytes, wall, &mut self.state, &mut self.output);
    }

    fn frame_passes(&self, frame: &DecodedFrame) -> (passes: bool)
        ensures
            passes == self@.passes(frame@),
    {
        match frame.level {
            Some(level) => match self.filters {
                Some(filters) => {
                    let module = match &frame.module {
                        Some(module) => Some(module.as_str()),
                        None => None,
                    };
                    assert(module_view(module) == frame@.module);
                    let minimum = filter_level(module, filters);
                    level_enabled(level, minimum)
                },
                None => true,
            },
            None => true,
        }
    }

    /// Shows and logs a message that passes the filters.
    pub fn render_defmt_frame(&mut self, channel: u32, frame: &DecodedFrame, wall: i64)
        requires
            old(self).wf(),
        ensures
            final(self).wf(),
            final(self)@ == old(self)@.defmt_frame(channel, frame@, wall),
    {
        if !self.frame_passes(frame) {
            return ;
        }
        let mut line: Vec<u8> = Vec::new();
        if let Some(timestamp) = &frame.timestamp {
            push_str(&mut line, "[");
            push_str(&mut line, timestamp.as_str());
            push_str(&mut line, "] ");
        }
        if let Some(level) = frame.level {
            push_str(&mut line, level_name(level));
            push_str(&mut line, " ");
        }
        push_str(&mut line, frame.message.as_str());
        push_str(&mut line, "\n");
        assert(Seq::<u8>::empty() + encode_utf8("["@) =~= encode_utf8("["@));
        assert(line@ == frame_line(frame@));
        let color = if self.state.color {
            defmt_level_color(frame.level)
        } else {
            None
        };
        self.log_text(channel, &line, wall);
        render_complete_line(channel, &line, wall, color, &mut self.state, &mut self.output);
    }

    /// Counts, shows and logs a warning.
    pub fn render_defmt_warning(&mut self, channel: u32, warning: &str, wall: i64)
        requires
            old(self).wf(),
            old(self).state.defmt_decode_warnings < u64::MAX,
        ensures
            final(self).wf(),
            final(self)@ == old(self)@.defmt_warning(channel, warning@, wall),
    {
        self.state.defmt_decode_warnings = self.state.defmt_decode_warnings + 1;
        let mut line: Vec<u8> = Vec::new();
        push_str(&mut line, "[defmt warning #");
        push_decimal(&mut line, self.state.defmt_decode_warnings);
        push_str(&mut line, "] ");
        push_str(&mut line, warning);
        push_str(&mut line, "\n");
        assert(Seq::<u8>::empty() + encode_utf8("[defmt warning #"@) =~= encode_utf8(
            "[defmt warning #"@,
        ));
        self.log_text(channel, &line, wall);
        render_complete_line(channel, &line, wall, None, &mut self.state, &mut self.output);
    }
}

/// The colour of a message, by its level.
pub fn defmt_level_color(level: Option<Level>) -> (color: Option<&'static str>)
    ensures
        color_view(color) == level_color(level),
{
    match level {
        Some(Level::Error) => Some("\x1b[31m"),
        Some(Level::Warn) => Some("\x1b[33m"),
        Some(Level::Debug) | Some(Level::Trace) => Some("\x1b[2m"),
        Some(Level::Info) | None => None,
    }
}

/// Of messages with a level, those pass whose level is no lower than that of the
/// filter that decides for the message's own module: the one with the longest name of
/// those that are meant for it, the last of several such.
pub proof fn law_messages_pass_by_their_own_module(
    context: ContextView,
    frame: FrameView,
    filters: Seq<FilterView>,
    level: Level,
    i: int,
)
    requires
        context.filters == Some(filters),
        frame.level == Some(level),
        0 <= i < filters.len(),
        filters[i].matches(frame.module),
        forall|j: int|
            0 <= j < filters.len() && (#[trigger] filters[j]).matches(frame.module)
                ==> filters[j].module.len() < filters[i].module.len() || (filters[j].module.len()
                == filters[i].module.len() && j <= i),
    ensures
        context.passes(frame) <==> rank(level) >= rank(filters[i].level),
{
    law_deciding_filter_sets_the_level(filters, frame.module, i);
}

/// A message passes where it has no level, where there are no filters, and where no
/// filter is meant for its module.
pub proof fn law_messages_without_a_filter_pass(context: ContextView, frame: FrameView)
    requires
        frame.level is None || context.filters is None || (forall|j: int|
            0 <= j < context.filters->0.len() ==> !(#[trigger] context.filters->0[j]).matches(
                frame.module,
            )),
    ensures
        context.passes(frame),
{
    if frame.level is Some && context.filters is Some {
        law_unfiltered_modules_are_shown(context.filters->0, frame.module, frame.level->0);
    }
}

/// A higher level never hides a message: of two of the same module, the one with the
/// higher level passes where the other does, whatever they say.
pub proof fn law_higher_levels_pass(
    context: ContextView,
    first: FrameView,
    second: FrameView,
    lower: Level,
    higher: Level,
)
    requires
        first.module == second.module,
        first.level == Some(lower),
        second.level == Some(higher),
        rank(lower) <= rank(higher),
        context.passes(first),
    ensures
        context.passes(second),
{
}

/// The text that shows a message: its time stamp in brackets, the name of its level
/// and what it says, with a space behind each of the first two.
pub open spec fn frame_text(frame: FrameView) -> Seq<char> {
    (match frame.timestamp {
        Some(timestamp) => "["@ + timestamp + "] "@,
        None => Seq::empty(),
    }) + (match frame.level {
        Some(Level::Trace) => "trace "@,
        Some(Level::Debug) => "debug "@,
        Some(Level::Info) => "info "@,
        Some(Level::Warn) => "warn "@,
        Some(Level::Error) => "error "@,
        None => Seq::empty(),
    }) + frame.message
}

/// A message is one line of text, with a line feed behind it.
pub proof fn law_messages_are_lines(frame: FrameView)
    ensures
        frame_line(frame) == encode_utf8(frame_text(frame)).push(10u8),
{
    let stamped = match frame.timestamp {
        Some(timestamp) => "["@ + timestamp + "] "@,
        None => Seq::empty(),
    };
    if let Some(timestamp) = frame.timestamp {
        lemma_encode_concat("["@, timestamp);
        lemma_encode_concat("["@ + timestamp, "] "@);
    }
    let leveled = match frame.level {
        Some(level) => level_text(level) + " "@,
        None => Seq::empty(),
    };
    reveal_strlit(" ");
    reveal_strlit("trace");
    reveal_strlit("debug");
    reveal_strlit("info");
    reveal_strlit("warn");
    reveal_strlit("error");
    reveal_strlit("trace ");
    reveal_strlit("debug ");
    reveal_strlit("info ");
    reveal_strlit("warn ");
    reveal_strlit("error ");
    assert("trace"@ + " "@ =~= "trace "@);
    assert("debug"@ + " "@ =~= "debug "@);
    assert("info"@ + " "@ =~= "info "@);
    assert("warn"@ + " "@ =~= "warn "@);
    assert("error"@ + " "@ =~= "error "@);
    assert(frame_text(frame) == stamped + leveled + frame.message);
    if let Some(level) = frame.level {
        lemma_encode_concat(level_text(level), " "@);
    }
    lemma_encode_concat(stamped, leveled);
    lemma_encode_concat(stamped + leveled, frame.message);
    lemma_no_text_has_no_bytes();
    lemma_line_feed_byte();
    assert(frame_line(frame) =~= encode_utf8(frame_text(frame)).push(10u8));
}

proof fn lemma_no_text_has_no_bytes()
    ensures
        encode_utf8(Seq::<char>::empty()) == Seq::<u8>::empty(),
{
    let nothing = Seq::<char>::empty();
    assert(is_ascii_chars(nothing));
    is_ascii_chars_encode_utf8(nothing);
    assert(encode_utf8(nothing) =~= Seq::<u8>::empty());
}

proof fn lemma_line_feed_byte()
    ensures
        encode_utf8("\n"@) == seq![10u8],
{
    reveal_strlit("\n");
    is_ascii_chars_encode_utf8("\n"@);
    assert(encode_utf8("\n"@) =~= seq![10u8]);
}

/// A message that passes is written to the screen as a line with its stamp and label
/// before it, in the colour of its level where colours are on; one that does not
/// pass changes nothing.
pub proof fn law_messages_are_shown(
    context: ContextView,
    channel: u32,
    frame: FrameView,
    wall: i64,
)
    requires
        context.screen.state.foreground is None,
        in_one_row(encode_utf8(frame_text(frame))),
    ensures
        ({
            let after = context.defmt_frame(channel, frame, wall);
            let color = match frame.level {
                Some(Level::Error) => Some("\x1b[31m"@),
                Some(Level::Warn) => Some("\x1b[33m"@),
                Some(Level::Info) => None,
                Some(Level::Debug) => Some("\x1b[2m"@),
                Some(Level::Trace) => Some("\x1b[2m"@),
                None => None,
            };
            let front = context.screen.output + line_front(context.screen.state, channel, wall);
            let text = encode_utf8(frame_text(frame));
            let end = if context.screen.state.interactive {
                seq![13u8, 10u8]
            } else {
                seq![10u8]
            };
            if !context.passes(frame) {
                after == context
            } else if context.screen.state.color && color is Some {
                after.screen.output == front + encode_utf8(color->0) + text + end + encode_utf8(
                    "\x1b[0m"@,
                )
            } else {
                after.screen.output == front + text + end
            }
        }),
{
    law_messages_are_lines(frame);
    let text = encode_utf8(frame_text(frame));
    if context.screen.state.color && level_color(frame.level) is Some {
        law_whole_colored_lines_are_written(
            context.screen,
            channel,
            text,
            wall,
            level_color(frame.level)->0,
        );
    } else {
        law_whole_lines_are_written(context.screen, channel, text, wall);
        let end = if context.screen.state.interactive {
            seq![13u8, 10u8]
        } else {
            seq![10u8]
        };
        let front = context.screen.output + line_front(context.screen.state, channel, wall);
        assert(context.screen.output + Seq::<u8>::empty() + line_front(
            context.screen.state,
            channel,
            wall,
        ) + text + end =~= front + text + end);
    }
}

/// Something to write, without line feeds and carriage returns.
pub open spec fn in_one_row(text: Seq<u8>) -> bool {
    text.len() > 0 && forall|i: int| 0 <= i < text.len() ==> #[trigger] text[i] != 10 && text[i] != 13
}

/// What stands before a line of a log: the stamp where stamps are on, then the
/// channel's tag where it is asked for.
pub open spec fn log_front(log: LogView, channel: u32, include_channel: bool, wall: i64) -> Seq<
    u8,
> {
    (if log.timestamps {
        stamp(wall)
    } else {
        Seq::empty()
    }) + (if include_channel {
        encode_utf8("[ch"@ + decimal(channel as nat) + "] "@)
    } else {
        Seq::empty()
    })
}

/// A message that passes is logged as a line of plain text, with the log's stamp and
/// tag before it; what is still unfinished of the channel's terminal output stays.
pub proof fn law_messages_are_logged(
    context: ContextView,
    log: LogView,
    channel: u32,
    frame: FrameView,
    wall: i64,
)
    requires
        context.log == Some(log),
        log.format == LogFormat::Decoded,
        one_each(log.text_pending),
        pending_text(log, channel).len() == 0,
        in_one_row(encode_utf8(frame_text(frame))),
        context.passes(frame),
    ensures
        ({
            let after = context.defmt_frame(channel, frame, wall).log;
            let file = if log.per_channel {
                Some(channel)
            } else {
                None
            };
            &&& after is Some
            &&& content(after->0.writes, file) == content(log.writes, file) + log_front(
                log,
                channel,
                context.include_channel,
                wall,
            ) + encode_utf8(frame_text(frame)).push(10u8)
            &&& after->0.streams == log.streams
        }),
{
    law_messages_are_lines(frame);
    let text = encode_utf8(frame_text(frame));
    law_text_lines_are_logged(log, channel, text, context.include_channel, wall);
    let file = if log.per_channel {
        Some(channel)
    } else {
        None
    };
    let after = context.defmt_frame(channel, frame, wall).log->0;
    assert(content(after.writes, file) =~= content(log.writes, file) + log_front(
        log,
        channel,
        context.include_channel,
        wall,
    ) + text.push(10u8));
}

/// A warning is shown and logged as a line with its number; the numbers go up by
/// one.
pub proof fn law_warnings_are_numbered(
    context: ContextView,
    channel: u32,
    warning: Seq<char>,
    wall: i64,
)
    requires
        context.screen.state.defmt_decode_warnings < u64::MAX,
        context.screen.state.foreground is None,
        in_one_row(encode_utf8(warning)),
    ensures
        ({
            let after = context.defmt_warning(channel, warning, wall);
            let number = context.screen.state.defmt_decode_warnings + 1;
            let text = encode_utf8("[defmt warning #"@ + decimal(number as nat) + "] "@ + warning);
            &&& after.screen.state.defmt_decode_warnings == number
            &&& warning_line(number as u64, warning) == text.push(10u8)
            &&& in_one_row(text) ==> after.screen.output == context.screen.output + line_front(
                context.screen.state,
                channel,
                wall,
            ) + text + (if context.screen.state.interactive {
                seq![13u8, 10u8]
            } else {
                seq![10u8]
            })
            &&& after.log == (match context.log {
                Some(log) => Some(
                    log.write_text(channel, text.push(10u8), context.include_channel, wall),
                ),
                None => None,
            })
        }),
{
    let number = (context.screen.state.defmt_decode_warnings + 1) as u64;
    let text = encode_utf8("[defmt warning #"@ + decimal(number as nat) + "] "@ + warning);
    lemma_encode_concat("[defmt warning #"@, decimal(number as nat));
    lemma_encode_concat("[defmt warning #"@ + decimal(number as nat), "] "@);
    lemma_encode_concat("[defmt warning #"@ + decimal(number as nat) + "] "@, warning);
    lemma_line_feed_byte();
    assert(warning_line(number, warning) =~= text.push(10u8));
    let counted = Screen {
        state: RenderView { defmt_decode_warnings: number, ..context.screen.state },
        ..context.screen
    };
    let line = text.push(10u8);
    law_complete_line_keeps_the_unfinished_one(counted, channel, line, wall, None);
    if in_one_row(text) {
        law_whole_lines_are_written(counted, channel, text, wall);
        let end = if context.screen.state.interactive {
            seq![13u8, 10u8]
        } else {
            seq![10u8]
        };
        let front = line_front(context.screen.state, channel, wall);
        assert(context.screen.output + Seq::<u8>::empty() + front + text + end
            =~= context.screen.output + front + text + end);
    }
}

/// What a decoder hands out is shown and logged in its order: in one go, or part by
/// part.
pub proof fn law_outputs_go_in_order(
    context: ContextView,
    channel: u32,
    first: Seq<OutputView>,
    frame: FrameView,
    warning: Seq<char>,
    second: Seq<OutputView>,
    wall: i64,
)
    ensures
        context.defmt_outputs(channel, first + second, wall) == context.defmt_outputs(
            channel,
            first,
            wall,
        ).defmt_outputs(channel, second, wall),
        context.defmt_outputs(channel, seq![OutputView::Frame(frame)], wall) == context.defmt_frame(
            channel,
            frame,
            wall,
        ),
        context.defmt_outputs(channel, seq![OutputView::Warning(warning)], wall)
            == context.defmt_warning(channel, warning, wall),
    decreases second.len(),
{
    reveal_with_fuel(ContextView::defmt_outputs, 2);
    assert(seq![OutputView::Frame(frame)].drop_last() =~= Seq::<OutputView>::empty());
    assert(seq![OutputView::Warning(warning)].drop_last() =~= Seq::<OutputView>::empty());
    if second.len() == 0 {
        assert(first + second =~= first);
    } else {
        law_outputs_go_in_order(
            context,
            channel,
            first,
            frame,
            warning,
            second.drop_last(),
            wall,
        );
        assert((first + second).drop_last() =~= first + second.drop_last());
    }
}

/// A chunk of terminal output is both shown and logged, whole and for its own
/// channel. A raw log gets bytes as they came, and the screen nothing of those.
pub proof fn law_terminal_output_goes_to_screen_and_log(
    context: ContextView,
    log: LogView,
    channel: u32,
    bytes: Seq<u8>,
    wall: i64,
)
    requires
        context.log == Some(log),
    ensures
        ({
            let after = context.terminal_event(channel, bytes, wall);
            &&& after.screen == context.screen.chunk(channel, bytes, wall)
            &&& after.log == Some(log.write_terminal(channel, bytes, context.include_channel, wall))
            &&& after.filters == context.filters
            &&& after.include_channel == context.include_channel
        }),
        log.format == LogFormat::Raw ==> ({
            let file = if log.per_channel {
                Some(channel)
            } else {
                None
            };
            let after = context.log_raw(channel, bytes);
            &&& after.screen == context.screen
            &&& after.log is Some
            &&& content(after.log->0.writes, file) == content(log.writes, file) + bytes
        }),
{
    if log.format == LogFormat::Raw {
        law_channels_have_their_files(log, channel, bytes);
    }
}

/// When the target restarts, the log gets what is unfinished, each with a line feed,
/// and nothing is kept on the screen or in the log.
pub proof fn law_restarts_write_out_what_is_unfinished(
    context: ContextView,
    log: LogView,
    file: Option<u32>,
    wall: i64,
)
    requires
        context.log == Some(log),
    ensures
        ({
            let after = context.target_restarted(wall);
            &&& after.log is Some
            &&& content(after.log->0.writes, file) == content(log.writes, file) + joined(
                stream_endings(log, file, wall, seq![10u8]),
            ) + joined(text_endings(log, file, wall, seq![10u8]))
            &&& after.log->0 == log.tails(wall, seq![10u8]).forgotten()
            &&& after.screen.output == context.screen.before_reset(wall).output
            &&& after.screen.state.streams.len() == 0
            &&& after.screen.state.foreground is None
            &&& after.screen.state.line_start
            &&& after.filters == context.filters
        }),
{
    law_unfinished_lines_are_written(log, file, wall, seq![10u8]);
}

} // verus!
