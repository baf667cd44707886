//! The course of a session.
//!
//! A session says what is to be done next, and is told what came of it. Whoever
//! runs it reads and writes the target, the keyboard and the screen.
use crate::cli::{ChannelEncoding, ChannelSpec, ColorMode, LogFormat};
use crate::down::{room, DownBuffer, MAX_DOWN_BUFFER_BYTES};
use crate::elf::DefmtData;
use crate::filter::filters_view;
use crate::keys::{
    handled, ActionView, EscapeState, InputAction, KeyCode, KeyEvent, SessionCommand,
};
use crate::lines::joined;
use crate::logger::{
    content, law_unfinished_lines_are_written, stream_endings, text_endings, LogView, Logger,
};
use crate::output::{ContextView, OutputContext};
use crate::reader::{fresh_reader, ReaderView, UpChannelReader, MAX_WARNINGS_AT_ONCE};
use crate::render::{
    erase_foreground, law_settings_are_kept, law_unfinished_lines_are_taken_back, render_bytes,
    render_channel_bytes, screen, RenderView, Screen, SessionState,
};
use crate::session::{
    channel_by_number, channel_exists, channels_problem, clear_screen, has_channel, help_text,
    law_channels_are_found_by_number, law_cleared_screens_start_at_the_top,
    law_missing_channels_are_a_problem, law_switches_are_shown, uses_color, validate_channels,
    with_cleared_screen, with_config, with_toggle_status, write_config, write_help,
    write_session_banner, write_toggle_status, ChannelInfo, SessionConfig,
};
use crate::text::{decimal, lemma_encode_concat, push_str};
use vstd::prelude::*;
use vstd::utf8::*;

verus! {

/// The most bytes that are read from a channel at once.
pub const UP_CHANNEL_BUFFER_SIZE: usize = 4096;

/// The most bytes that are read before the keyboard is looked at again.
pub const RTT_READ_BUDGET_PER_POLL: usize = 65536;

/// How long attaching to the target is tried, in milliseconds.
pub const RTT_ATTACH_TIMEOUT_MILLIS: u64 = 3000;

/// How long attaching to the target again is tried, in milliseconds.
pub const RTT_REATTACH_TIMEOUT_MILLIS: u64 = 3000;

/// How long halting the target is tried, in milliseconds.
pub const TARGET_HALT_TIMEOUT_MILLIS: u64 = 100;

/// A round over the up channels.
#[derive(Debug, Clone, Copy, PartialEq, Eq, Structural)]
pub struct Poll {
    /// The place of the channel whose turn it is.
    pub reader: usize,
    /// A channel gave bytes since the channels were gone through from the first.
    pub made_progress: bool,
    /// The bytes that may still be read.
    pub budget: usize,
    /// The bytes that were read.
    pub bytes: usize,
    /// The chunks of terminal output that were read.
    pub messages: usize,
}

impl Poll {
    /// A round that begins.
    pub open spec fn start() -> Poll {
        Poll {
            reader: 0,
            made_progress: false,
            budget: RTT_READ_BUDGET_PER_POLL,
            bytes: 0,
            messages: 0,
        }
    }

    /// What was read and what may still be read make up the budget.
    pub open spec fn wf(self) -> bool {
        self.budget + self.bytes == RTT_READ_BUDGET_PER_POLL && self.messages <= self.bytes
    }

    /// How much may be read from the channel whose turn it is.
    pub open spec fn max(self) -> usize {
        if self.budget < UP_CHANNEL_BUFFER_SIZE {
            self.budget
        } else {
            UP_CHANNEL_BUFFER_SIZE
        }
    }

    /// It is the next channel's turn.
    pub open spec fn passed_on(self) -> Poll {
        Poll { reader: (self.reader + 1) as usize, ..self }
    }

    /// A channel gave bytes.
    pub open spec fn took(self, count: nat, terminal: bool) -> Poll {
        Poll {
            made_progress: true,
            budget: (self.budget - count) as usize,
            bytes: (self.bytes + count) as usize,
            messages: if terminal {
                (self.messages + 1) as usize
            } else {
                self.messages
            },
            ..self
        }
    }

    /// The channels are gone through again, from the first.
    pub open spec fn again(self) -> Poll {
        Poll { reader: 0, made_progress: false, ..self }
    }

    /// A channel is to be read.
    pub open spec fn reads(self, channels: nat) -> bool {
        self.reader < channels && self.budget > 0
    }

    /// The channels are to be gone through again.
    pub open spec fn repeats(self, channels: nat) -> bool {
        !self.reads(channels) && self.made_progress && self.budget > 0
    }

    /// Something was read.
    pub open spec fn had_data(self) -> bool {
        self.bytes > 0 || self.messages > 0
    }
}

/// Where a session stands.
#[derive(Debug, Clone, Copy, PartialEq, Eq, Structural)]
pub enum Phase {
    /// The up channels are read.
    Polling(Poll),
    /// The frames that a defmt channel still holds are decoded.
    Draining(Poll),
    /// The target restarted.
    Reattaching,
    /// What was read is brought to screen and log.
    Flushing,
    /// The keyboard is looked at.
    Input { had_data: bool },
    /// The target is reset.
    Resetting,
    /// What was typed is sent.
    Sending,
    /// The user has quit.
    Ended,
}

/// What is to be done next.
#[derive(Debug, Clone, Copy, PartialEq, Eq, Structural)]
pub enum Action {
    /// Read at most `max` bytes from an up channel.
    Read { channel: usize, max: usize },
    /// Decode what a channel still holds.
    Decode,
    /// Attach to the target again.
    Reattach,
    /// Bring the output to screen and log.
    Flush,
    /// Wait for a key, this many milliseconds at most.
    PollInput { timeout: u64 },
    /// Wait this many milliseconds.
    Sleep { millis: u64 },
    /// Reset the target and attach to it again.
    Reset,
    /// Send what waits to a down channel.
    Send { channel: usize },
    /// Leave.
    End,
}

/// The state of a session.
pub struct SessionView {
    pub config: SessionConfig,
    pub readers: Seq<ReaderView>,
    pub context: ContextView,
    pub down: Seq<u8>,
    pub dropped: u64,
    pub escape: EscapeState,
    pub stdin_setup: bool,
    pub phase: Phase,
}

impl SessionView {
    /// A channel is read.
    pub open spec fn reading(self, poll: Poll) -> (Phase, Action) {
        (
            Phase::Polling(poll),
            Action::Read {
                channel: self.readers[poll.reader as int].channel_number,
                max: poll.max(),
            },
        )
    }

    /// What waits is sent; where nothing does, the channels are read again.
    pub open spec fn sending(self) -> (Phase, Action) {
        match self.config.down_channel {
            Some(channel) => if self.down.len() > 0 {
                (Phase::Sending, Action::Send { channel })
            } else {
                self.reading(Poll::start())
            },
            None => self.reading(Poll::start()),
        }
    }

    /// The keyboard is looked at where there is one and room for what is typed,
    /// without waiting where the channels gave something. Else an idle session
    /// waits.
    pub open spec fn input(self, had_data: bool) -> (Phase, Action) {
        if self.stdin_setup && self.down.len() < MAX_DOWN_BUFFER_BYTES {
            (
                Phase::Input { had_data },
                Action::PollInput {
                    timeout: if had_data {
                        0
                    } else {
                        self.config.poll_interval
                    },
                },
            )
        } else if !had_data {
            (Phase::Input { had_data }, Action::Sleep { millis: self.config.poll_interval })
        } else {
            self.sending()
        }
    }

    /// What is to be done next, and where the session then stands.
    pub open spec fn next(self) -> (Phase, Action) {
        match self.phase {
            Phase::Polling(poll) => if poll.reads(self.readers.len()) {
                self.reading(poll)
            } else if poll.repeats(self.readers.len()) {
                self.reading(poll.again())
            } else if poll.had_data() {
                (Phase::Flushing, Action::Flush)
            } else {
                self.input(false)
            },
            Phase::Draining(poll) => (self.phase, Action::Decode),
            Phase::Reattaching => (self.phase, Action::Reattach),
            Phase::Flushing => (self.phase, Action::Flush),
            Phase::Input { had_data } => self.input(had_data),
            Phase::Resetting => (self.phase, Action::Reset),
            Phase::Sending => self.sending(),
            Phase::Ended => (self.phase, Action::End),
        }
    }
}

/// What is said when the target restarted by itself.
pub open spec fn reattached_notice() -> Seq<u8> {
    encode_utf8("\r\nRTT control block changed; reattached to target.\r\n"@)
}

/// What is said when the target was reset.
pub open spec fn reset_notice() -> Seq<u8> {
    encode_utf8("\r\nTarget reset.\r\n"@)
}

impl Screen {
    /// What a command shows, and the switch that it turns.
    pub open spec fn command_output(self, command: SessionCommand, config: SessionConfig) -> Screen {
        let timestamps = !self.state.timestamps;
        let local_echo = !self.state.local_echo;
        match command {
            SessionCommand::Help => self.write(encode_utf8(help_text())),
            SessionCommand::ShowConfig => Screen {
                output: with_config(
                    self.output,
                    config,
                    self.state.timestamps,
                    self.state.local_echo,
                ),
                ..self
            },
            SessionCommand::ClearScreen => Screen {
                output: with_cleared_screen(self.output),
                ..self
            },
            SessionCommand::ToggleTimestamps => Screen {
                state: RenderView { timestamps, ..self.state },
                output: with_toggle_status(self.output, "Timestamps"@, timestamps),
            },
            SessionCommand::ToggleLocalEcho => Screen {
                state: RenderView { local_echo, ..self.state },
                output: with_toggle_status(self.output, "Local echo"@, local_echo),
            },
            SessionCommand::Quit | SessionCommand::ResetTarget => self,
        }
    }

    /// A command that leaves the target alone is carried out. The unfinished line
    /// is drawn again below its output.
    pub open spec fn commanded(
        self,
        command: SessionCommand,
        config: SessionConfig,
        wall: i64,
    ) -> Screen {
        let shown = self.erased().command_output(command, config).at_line_start();
        match self.state.foreground {
            Some(saved) => shown.drawn(saved, wall),
            None => shown,
        }
    }
}

/// Shows what a command shows, and turns its switch.
fn write_command_output(
    command: SessionCommand,
    config: &SessionConfig,
    state: &mut SessionState,
    output: &mut Vec<u8>,
)
    ensures
        screen(*final(state), *final(output)) == screen(
            *old(state),
            *old(output),
        ).command_output(command, *config),
        final(state).streams == old(state).streams,
{
    match command {
        SessionCommand::Help => write_help(output),
        SessionCommand::ShowConfig => write_config(config, state, output),
        SessionCommand::ClearScreen => clear_screen(output),
        SessionCommand::ToggleTimestamps => {
            state.timestamps = !state.timestamps;
            write_toggle_status(output, "Timestamps", state.timestamps);
        },
        SessionCommand::ToggleLocalEcho => {
            state.local_echo = !state.local_echo;
            write_toggle_status(output, "Local echo", state.local_echo);
        },
        SessionCommand::Quit | SessionCommand::ResetTarget => {},
    }
}

impl SessionView {
    /// The decoder of the channel whose turn it is, where it has one, answers each
    /// attempt to decode bytes.
    pub open spec fn decoder_answers(self, bytes: Seq<u8>) -> bool {
        match self.phase {
            Phase::Polling(poll) | Phase::Draining(poll) => {
                self.readers[poll.reader as int].defmt matches Some(defmt) ==> defmt.answers(bytes)
            },
            _ => true,
        }
    }

    /// The channel whose turn it is gave bytes, or none.
    pub open spec fn read(self, poll: Poll, bytes: Seq<u8>, wall: i64) -> SessionView {
        let reader = self.readers[poll.reader as int];
        let index = reader.spec.index;
        let took = poll.took(bytes.len(), reader.spec.mode == ChannelEncoding::Terminal);
        if bytes.len() == 0 {
            SessionView {
                phase: if reader.spec.mode == ChannelEncoding::Defmt {
                    Phase::Draining(poll)
                } else {
                    Phase::Polling(poll.passed_on())
                },
                ..self
            }
        } else if reader.spec.mode == ChannelEncoding::Terminal {
            SessionView {
                context: self.context.log_raw(index, bytes).terminal_event(index, bytes, wall),
                phase: Phase::Polling(took.passed_on()),
                ..self
            }
        } else {
            SessionView { context: self.context.log_raw(index, bytes), ..self }.decoding(
                took,
                bytes,
                wall,
            )
        }
    }

    /// The decoder of the channel whose turn it is takes bytes. The turn passes on
    /// when it holds no more frames.
    pub open spec fn decoding(self, poll: Poll, bytes: Seq<u8>, wall: i64) -> SessionView {
        let place = poll.reader as int;
        let reader = self.readers[place];
        let defmt = reader.defmt->0;
        SessionView {
            readers: self.readers.update(
                place,
                ReaderView { defmt: Some(defmt.after(bytes)), ..reader },
            ),
            context: defmt.shown(self.context, reader.spec.index, bytes, wall),
            phase: if defmt.result(bytes).hit_frame_limit {
                Phase::Draining(poll)
            } else {
                Phase::Polling(poll.passed_on())
            },
            ..self
        }
    }

    /// The target restarted: channels and decoders begin anew, what is unfinished
    /// is written out, and what waits to be sent is forgotten.
    pub open spec fn restarted(self, wall: i64) -> SessionView {
        SessionView {
            readers: self.readers.map_values(|reader: ReaderView| restarted_reader(reader)),
            context: self.context.target_restarted(wall),
            down: Seq::empty(),
            ..self
        }
    }

    /// The target restarted by itself.
    pub open spec fn reattached(self, wall: i64) -> SessionView {
        let after = self.restarted(wall);
        SessionView {
            context: if after.context.screen.state.interactive {
                ContextView {
                    screen: after.context.screen.write(reattached_notice()),
                    ..after.context
                }
            } else {
                after.context
            },
            phase: Phase::Polling(Poll::start()),
            ..after
        }
    }

    /// The target was reset.
    pub open spec fn reset(self, wall: i64) -> SessionView {
        let after = self.restarted(wall);
        SessionView {
            context: after.context.notice(reset_notice()),
            phase: Phase::Sending,
            ..after
        }
    }

    /// Bytes are typed: they are shown where the user wants it, and wait to be
    /// sent as far as there is room.
    pub open spec fn sends(self, bytes: Seq<u8>, wall: i64) -> SessionView {
        let taken = room(self.down.len() as int, bytes.len() as int);
        SessionView {
            context: if self.context.screen.state.local_echo {
                ContextView {
                    screen: self.context.screen.bytes(bytes, None, wall, None),
                    ..self.context
                }
            } else {
                self.context
            },
            down: self.down + bytes.take(taken),
            dropped: (self.dropped + (bytes.len() - taken)) as u64,
            phase: Phase::Sending,
            ..self
        }
    }

    /// A command is given. A reset takes the unfinished line back and is then done
    /// by whoever runs the session.
    pub open spec fn commanded(self, command: SessionCommand, wall: i64) -> SessionView {
        match command {
            SessionCommand::Quit => SessionView { phase: Phase::Ended, ..self },
            SessionCommand::ResetTarget => SessionView {
                context: ContextView { screen: self.context.screen.erased(), ..self.context },
                phase: Phase::Resetting,
                ..self
            },
            _ => SessionView {
                context: ContextView {
                    screen: self.context.screen.commanded(command, self.config, wall),
                    ..self.context
                },
                phase: Phase::Sending,
                ..self
            },
        }
    }

    /// Something happened to a key.
    pub open spec fn typed(self, key: KeyEvent, wall: i64) -> SessionView {
        let (escape, action) = handled(self.escape, key);
        let after = SessionView { escape, ..self };
        match action {
            ActionView::Send(bytes) => after.sends(bytes, wall),
            ActionView::Command(command) => after.commanded(command, wall),
            ActionView::Ignore => SessionView { phase: Phase::Sending, ..after },
        }
    }
}

/// An up channel of a target that restarted.
pub open spec fn restarted_reader(reader: ReaderView) -> ReaderView {
    ReaderView {
        defmt: match reader.defmt {
            Some(defmt) => Some(defmt.replaced()),
            None => None,
        },
        ..reader
    }
}

/// Up channels as values.
pub open spec fn readers_view(readers: Seq<UpChannelReader<'_>>) -> Seq<ReaderView> {
    readers.map_values(|reader: UpChannelReader<'_>| reader@)
}

/// A session.
pub struct Session<'t> {
    pub config: &'t SessionConfig,
    pub readers: Vec<UpChannelReader<'t>>,
    pub render: OutputContext<'t>,
    pub down: DownBuffer,
    pub escape: EscapeState,
    pub stdin_setup: bool,
    pub phase: Phase,
}

impl<'t> View for Session<'t> {
    type V = SessionView;

    open spec fn view(&self) -> SessionView {
        SessionView {
            config: *self.config,
            readers: readers_view(self.readers@),
            context: self.render@,
            down: self.down.bytes@,
            dropped: self.down.dropped,
            escape: self.escape,
            stdin_setup: self.stdin_setup,
            phase: self.phase,
        }
    }
}

impl<'t> Session<'t> {
    /// There is a channel to read, and the parts are well-formed.
    pub open spec fn wf(self) -> bool {
        &&& self.readers@.len() > 0
        &&& forall|i: int| 0 <= i < self.readers@.len() ==> (#[trigger] self.readers@[i]).wf()
        &&& self.render.wf()
        &&& self.down.wf()
        &&& match self.phase {
            Phase::Polling(poll) => poll.wf() && poll.reader <= self.readers@.len(),
            Phase::Draining(poll) => poll.wf() && poll.reader < self.readers@.len()
                && self.readers@[poll.reader as int].decoder is Some,
            _ => true,
        }
    }

    /// Decides what is to be done next.
    pub fn next(&mut self) -> (action: Action)
        requires
            old(self).wf(),
        ensures
            final(self).wf(),
            (final(self).phase, action) == old(self)@.next(),
            final(self)@ == (SessionView { phase: final(self).phase, ..old(self)@ }),
    {
        match self.phase {
            Phase::Polling(poll) => {
                if poll.reader < self.readers.len() && poll.budget > 0 {
                    self.read_next(poll)
                } else if poll.made_progress && poll.budget > 0 {
                    self.read_next(Poll { reader: 0, made_progress: false, ..poll })
                } else if poll.bytes > 0 || poll.messages > 0 {
                    self.phase = Phase::Flushing;
                    Action::Flush
                } else {
                    self.input_next(false)
                }
            },
            Phase::Draining(_) => Action::Decode,
            Phase::Reattaching => Action::Reattach,
            Phase::Flushing => Action::Flush,
            Phase::Input { had_data } => self.input_next(had_data),
            Phase::Resetting => Action::Reset,
            Phase::Sending => self.send_next(),
            Phase::Ended => Action::End,
        }
    }

    fn read_next(&mut self, poll: Poll) -> (action: Action)
        requires
            old(self).wf(),
            poll.wf(),
            poll.reader < old(self).readers@.len(),
        ensures
            final(self).wf(),
            (final(self).phase, action) == old(self)@.reading(poll),
            final(self)@ == (SessionView { phase: final(self).phase, ..old(self)@ }),
    {
        assert(self@.readers[poll.reader as int] == self.readers@[poll.reader as int]@);
        let max = if poll.budget < UP_CHANNEL_BUFFER_SIZE {
            poll.budget
        } else {
            UP_CHANNEL_BUFFER_SIZE
        };
        self.phase = Phase::Polling(poll);
        Action::Read { channel: self.readers[poll.reader].channel_number, max }
    }

    fn begin_poll() -> (poll: Poll)
        ensures
            poll == Poll::start(),
            poll.wf(),
    {
        Poll {
            reader: 0,
            made_progress: false,
            budget: RTT_READ_BUDGET_PER_POLL,
            bytes: 0,
            messages: 0,
        }
    }

    fn send_next(&mut self) -> (action: Action)
        requires
            old(self).wf(),
        ensures
            final(self).wf(),
            (final(self).phase, action) == old(self)@.sending(),
            final(self)@ == (SessionView { phase: final(self).phase, ..old(self)@ }),
    {
        if let Some(channel) = self.config.down_channel {
            if !self.down.is_empty() {
                self.phase = Phase::Sending;
                return Action::Send { channel };
            }
        }
        let poll = Self::begin_poll();
        self.read_next(poll)
    }

    fn input_next(&mut self, had_data: bool) -> (action: Action)
        requires
            old(self).wf(),
        ensures
            final(self).wf(),
            (final(self).phase, action) == old(self)@.input(had_data),
            final(self)@ == (SessionView { phase: final(self).phase, ..old(self)@ }),
    {
        if self.stdin_setup && self.down.len() < MAX_DOWN_BUFFER_BYTES {
            self.phase = Phase::Input { had_data };
            let timeout = if had_data {
                0
            } else {
                self.config.poll_interval
            };
            Action::PollInput { timeout }
        } else if !had_data {
            self.phase = Phase::Input { had_data };
            Action::Sleep { millis: self.config.poll_interval }
        } else {
            self.send_next()
        }
    }

    /// The read that was to be done gave bytes, or none.
    pub fn read_done(&mut self, bytes: &[u8], wall: i64)
        requires
            old(self).wf(),
            old(self).phase matches Phase::Polling(poll) && poll.reads(old(self).readers@.len())
                && bytes@.len() <= poll.max(),
            bytes@.len() > 0 ==> old(self)@.decoder_answers(bytes@),
            old(self).render.state.defmt_decode_warnings + MAX_WARNINGS_AT_ONCE <= u64::MAX,
        ensures
            final(self).wf(),
            final(self)@ == old(self)@.read(old(self).phase->Polling_0, bytes@, wall),
    {
        let poll = match self.phase {
            Phase::Polling(poll) => poll,
            _ => {
                return ;
            },
        };
        let ghost before = self@;
        let ghost reader = before.readers[poll.reader as int];
        assert(reader == self.readers@[poll.reader as int]@);
        let spec = self.readers[poll.reader].spec;
        assert(poll.reader < self.readers.len());
        if bytes.len() == 0 {
            self.phase = match spec.mode {
                ChannelEncoding::Defmt => Phase::Draining(poll),
                ChannelEncoding::Terminal => Phase::Polling(
                    Poll { reader: poll.reader + 1, ..poll },
                ),
            };
            return ;
        }
        let terminal = spec.mode == ChannelEncoding::Terminal;
        let took = Poll {
            made_progress: true,
            budget: poll.budget - bytes.len(),
            bytes: poll.bytes + bytes.len(),
            messages: if terminal {
                poll.messages + 1
            } else {
                poll.messages
            },
            ..poll
        };
        self.render.log_raw(spec.index, bytes);
        if terminal {
            self.render.render_terminal_event(spec.index, bytes, wall);
            self.phase = Phase::Polling(Poll { reader: took.reader + 1, ..took });
        } else {
            self.decode(took, bytes, wall);
        }
    }

    /// The read that was to be done gave bytes, or none: takes them in where no
    /// decoder has to answer, that is from a terminal channel, or where nothing came.
    /// Else the session stays as it is, and `read_done` takes them.
    pub fn terminal_read_done(&mut self, bytes: &[u8], wall: i64) -> (taken: bool)
        requires
            old(self).wf(),
            old(self).phase matches Phase::Polling(poll) && poll.reads(old(self).readers@.len())
                && bytes@.len() <= poll.max(),
            old(self).render.state.defmt_decode_warnings + MAX_WARNINGS_AT_ONCE <= u64::MAX,
        ensures
            final(self).wf(),
            ({
                let poll = old(self).phase->Polling_0;
                &&& taken == (bytes@.len() == 0 || old(self)@.readers[poll.reader as int].spec.mode
                    == ChannelEncoding::Terminal)
                &&& final(self)@ == (if taken {
                    old(self)@.read(poll, bytes@, wall)
                } else {
                    old(self)@
                })
            }),
    {
        let poll = match self.phase {
            Phase::Polling(poll) => poll,
            _ => {
                return false;
            },
        };
        assert(self@.readers[poll.reader as int] == self.readers@[poll.reader as int]@);
        if bytes.len() > 0 && self.readers[poll.reader].spec.mode != ChannelEncoding::Terminal {
            return false;
        }
        self.read_done(bytes, wall);
        true
    }

    fn decode(&mut self, poll: Poll, bytes: &[u8], wall: i64)
        requires
            old(self).wf(),
            poll.wf(),
            poll.reader < old(self).readers@.len(),
            old(self).readers@[poll.reader as int].decoder is Some,
            old(self)@.readers[poll.reader as int].defmt->0.answers(bytes@),
            old(self).render.state.defmt_decode_warnings + MAX_WARNINGS_AT_ONCE <= u64::MAX,
        ensures
            final(self).wf(),
            final(self)@ == old(self)@.decoding(poll, bytes@, wall),
    {
        let ghost before = self@;
        let ghost readers = self.readers@;
        assert(before.readers[poll.reader as int] == readers[poll.reader as int]@);
        let limit = self.readers[poll.reader].process_defmt(bytes, wall, &mut self.render);
        assert(self.readers@ == readers.update(
            poll.reader as int,
            self.readers@[poll.reader as int],
        ));
        assert(self@.readers =~= before.decoding(poll, bytes@, wall).readers);
        assert(poll.reader < self.readers.len());
        self.phase = if limit {
            Phase::Draining(poll)
        } else {
            Phase::Polling(Poll { reader: poll.reader + 1, ..poll })
        };
    }

    /// Decodes what the channel whose turn it is still holds.
    pub fn decode_more(&mut self, wall: i64)
        requires
            old(self).wf(),
            old(self).phase is Draining,
            old(self)@.decoder_answers(Seq::empty()),
            old(self).render.state.defmt_decode_warnings + MAX_WARNINGS_AT_ONCE <= u64::MAX,
        ensures
            final(self).wf(),
            final(self)@ == old(self)@.decoding(old(self).phase->Draining_0, Seq::empty(), wall),
    {
        let nothing: Vec<u8> = Vec::new();
        assert(nothing@ =~= Seq::<u8>::empty());
        if let Phase::Draining(poll) = self.phase {
            self.decode(poll, &nothing, wall);
        }
    }

    /// The read that was to be done showed that the target restarted.
    pub fn pointer_changed(&mut self)
        requires
            old(self).wf(),
        ensures
            final(self).wf(),
            final(self)@ == (SessionView { phase: Phase::Reattaching, ..old(self)@ }),
            final(self)@.next().1 == Action::Reattach,
    {
        self.phase = Phase::Reattaching;
    }

    /// The output was brought to screen and log.
    pub fn flushed(&mut self)
        requires
            old(self).wf(),
        ensures
            final(self).wf(),
            final(self)@ == (SessionView { phase: Phase::Input { had_data: true }, ..old(self)@ }),
            final(self)@.next().1 !is Sleep,
            final(self)@.next().1 matches Action::PollInput { timeout } ==> timeout == 0,
    {
        self.phase = Phase::Input { had_data: true };
    }

    /// The wait is over, and no key came.
    pub fn waited(&mut self)
        requires
            old(self).wf(),
        ensures
            final(self).wf(),
            final(self)@ == (SessionView { phase: Phase::Sending, ..old(self)@ }),
            final(self)@.next().1 is Send <==> old(self)@.down.len() > 0
                && old(self)@.config.down_channel is Some,
            final(self)@.next().1 is Send || final(self)@.next().1 is Read,
    {
        self.phase = Phase::Sending;
    }

    /// Bytes from the front of those that wait were sent.
    pub fn sent(&mut self, count: usize)
        requires
            old(self).wf(),
            count <= old(self).down.bytes@.len(),
        ensures
            final(self).wf(),
            final(self)@ == (SessionView {
                down: old(self)@.down.skip(count as int),
                phase: Phase::Polling(Poll::start()),
                ..old(self)@
            }),
            old(self)@.down == old(self)@.down.take(count as int) + final(self)@.down,
            final(self)@.next().1 == (Action::Read {
                channel: old(self)@.readers[0].channel_number,
                max: 4096,
            }),
    {
        assert(self@.down =~= self@.down.take(count as int) + self@.down.skip(count as int));
        self.down.consume(count);
        self.phase = Phase::Polling(Self::begin_poll());
    }

    /// Starts the channels anew, writes out what is unfinished and forgets what
    /// waits to be sent.
    fn restart(&mut self, wall: i64)
        requires
            old(self).wf(),
            old(self).phase == Phase::Reattaching || old(self).phase == Phase::Resetting,
        ensures
            final(self).wf(),
            final(self)@ == old(self)@.restarted(wall),
    {
        let ghost before = self@;
        let ghost readers = self.readers@;
        let mut index: usize = 0;
        while index < self.readers.len()
            invariant
                index <= readers.len(),
                readers.len() > 0,
                self.readers@.len() == readers.len(),
                before.readers == readers_view(readers),
                self@ == (SessionView { readers: self@.readers, ..before }),
                self.render.wf(),
                self.down.wf(),
                self.phase == old(self).phase,
                old(self).phase == Phase::Reattaching || old(self).phase == Phase::Resetting,
                forall|i: int| 0 <= i < readers.len() ==> (#[trigger] self.readers@[i]).wf(),
                forall|i: int|
                    0 <= i < index ==> (#[trigger] self.readers@[i])@ == restarted_reader(
                        readers[i]@,
                    ),
                forall|i: int| index <= i < readers.len() ==> #[trigger] self.readers@[i] == readers[i],
            decreases readers.len() - index,
        {
            let ghost previous = self.readers@;
            self.readers[index].restart();
            assert(self.readers@ == previous.update(index as int, self.readers@[index as int]));
            index += 1;
        }
        assert(self@.readers =~= before.restarted(wall).readers);
        self.render.restart_target(wall);
        self.down.clear();
    }

    /// The target was attached to again after it restarted. Its channels must still
    /// be there.
    pub fn reattached(
        &mut self,
        up_channels: &[ChannelInfo],
        down_channels: &[ChannelInfo],
        wall: i64,
    ) -> (result: Result<(), String>)
        requires
            old(self).wf(),
            old(self).phase == Phase::Reattaching,
        ensures
            final(self).wf(),
            ({
                let problem = channels_problem(
                    up_channels@,
                    down_channels@,
                    old(self).config.up_specs@,
                    old(self).config.down_channel,
                );
                match result {
                    Ok(()) => problem is None && final(self)@ == old(self)@.reattached(wall),
                    Err(message) => problem == Some(message@) && final(self)@ == old(self)@,
                }
            }),
    {
        if let Err(message) = validate_channels(up_channels, down_channels, self.config) {
            return Err(message);
        }
        self.restart(wall);
        if self.render.state.interactive {
            push_str(
                &mut self.render.output,
                "\r\nRTT control block changed; reattached to target.\r\n",
            );
        }
        self.phase = Phase::Polling(Self::begin_poll());
        Ok(())
    }

    /// The target was reset and attached to again. Its channels must still be
    /// there.
    pub fn target_reset(
        &mut self,
        up_channels: &[ChannelInfo],
        down_channels: &[ChannelInfo],
        wall: i64,
    ) -> (result: Result<(), String>)
        requires
            old(self).wf(),
            old(self).phase == Phase::Resetting,
        ensures
            final(self).wf(),
            ({
                let problem = channels_problem(
                    up_channels@,
                    down_channels@,
                    old(self).config.up_specs@,
                    old(self).config.down_channel,
                );
                match result {
                    Ok(()) => problem is None && final(self)@ == old(self)@.reset(wall),
                    Err(message) => problem == Some(message@) && final(self)@ == old(self)@,
                }
            }),
    {
        if let Err(message) = validate_channels(up_channels, down_channels, self.config) {
            return Err(message);
        }
        self.restart(wall);
        push_str(&mut self.render.output, "\r\nTarget reset.\r\n");
        self.render.state.line_start = true;
        self.phase = Phase::Sending;
        Ok(())
    }

    /// Something happened to a key.
    pub fn key_event(&mut self, key: KeyEvent, wall: i64)
        requires
            old(self).wf(),
            old(self).down.dropped + MAX_KEY_BYTES <= u64::MAX,
        ensures
            final(self).wf(),
            final(self)@ == old(self)@.typed(key, wall),
    {
        let (escape, action) = self.escape.handle_key(key);
        proof {
            law_keys_are_short(self.escape, key);
        }
        self.escape = escape;
        match action {
            InputAction::Send(bytes) => {
                if self.render.state.local_echo {
                    render_bytes(&bytes, wall, &mut self.render.state, &mut self.render.output);
                }
                self.down.push(&bytes);
                self.phase = Phase::Sending;
            },
            InputAction::Command(command) => self.dispatch_command(command, wall),
            InputAction::Ignore => {
                self.phase = Phase::Sending;
            },
        }
    }

    /// Carries out a command.
    pub fn dispatch_command(&mut self, command: SessionCommand, wall: i64)
        requires
            old(self).wf(),
        ensures
            final(self).wf(),
            final(self)@ == old(self)@.commanded(command, wall),
    {
        if command == SessionCommand::Quit {
            self.phase = Phase::Ended;
            return ;
        }
        let suspended = erase_foreground(&mut self.render.state, &mut self.render.output);
        if command == SessionCommand::ResetTarget {
            self.phase = Phase::Resetting;
            return ;
        }
        write_command_output(
            command,
            self.config,
            &mut self.render.state,
            &mut self.render.output,
        );
        self.render.state.line_start = true;
        if let Some(saved) = suspended {
            render_channel_bytes(
                &saved.bytes,
                Some(saved.channel),
                wall,
                &mut self.render.state,
                &mut self.render.output,
            );
            self.render.state.foreground = Some(saved);
        }
        self.phase = Phase::Sending;
    }

    /// The session is over: what the log has not got of unfinished lines is
    /// written.
    pub fn finish(&mut self, wall: i64)
        requires
            old(self).wf(),
        ensures
            final(self).wf(),
            final(self)@ == (SessionView {
                context: ContextView {
                    log: match old(self)@.context.log {
                        Some(log) => Some(log.tails(wall, Seq::empty())),
                        None => None,
                    },
                    ..old(self)@.context
                },
                ..old(self)@
            }),
            old(self)@.context.log matches Some(log) ==> forall|file: Option<u32>| #[trigger]
                content(final(self)@.context.log->0.writes, file) == content(log.writes, file)
                    + joined(stream_endings(log, file, wall, Seq::empty())) + joined(
                    text_endings(log, file, wall, Seq::empty()),
                ),
    {
        proof {
            if let Some(log) = self@.context.log {
                assert forall|file: Option<u32>| #[trigger]
                    content(log.tails(wall, Seq::empty()).writes, file) == content(log.writes, file)
                        + joined(stream_endings(log, file, wall, Seq::empty())) + joined(
                        text_endings(log, file, wall, Seq::empty()),
                    ) by {
                    law_unfinished_lines_are_written(log, file, wall, Seq::empty());
                }
            }
        }
        match &mut self.render.logger {
            Some(logger) => logger.flush(wall),
            None => {},
        }
    }
}

/// What is to be done before a session starts: the target is reset where the user
/// wants it.
pub fn first_action(config: &SessionConfig) -> (action: Option<Action>)
    ensures
        action == (if config.reset {
            Some(Action::Reset)
        } else {
            None
        }),
{
    if config.reset {
        Some(Action::Reset)
    } else {
        None
    }
}

/// What the session is run on.
#[derive(Debug, Clone, Copy, PartialEq, Eq, Structural)]
pub struct Terminals {
    /// The output goes to a terminal.
    pub stdout: bool,
    /// The input comes from a terminal.
    pub stdin: bool,
    /// The user has turned colours off.
    pub no_color: bool,
}

/// The first defmt channel among the first `count`.
pub open spec fn first_defmt(specs: Seq<ChannelSpec>, count: int) -> Option<u32>
    decreases count,
{
    if count <= 0 {
        None
    } else {
        match first_defmt(specs, count - 1) {
            Some(index) => Some(index),
            None => if specs[count - 1].mode == ChannelEncoding::Defmt {
                Some(specs[count - 1].index)
            } else {
                None
            },
        }
    }
}

/// A raw log is asked for that one file would have to hold for several channels.
pub open spec fn log_is_refused(config: SessionConfig) -> bool {
    config.log is Some && config.log_format == LogFormat::Raw && !config.log_per_channel
        && config.up_specs@.len() > 1
}

/// Why a session cannot start: a channel is missing, a defmt channel has no table,
/// or the log cannot be kept.
pub open spec fn start_problem(
    config: SessionConfig,
    up_channels: Seq<ChannelInfo>,
    down_channels: Seq<ChannelInfo>,
) -> Option<Seq<char>> {
    let channels = channels_problem(
        up_channels,
        down_channels,
        config.up_specs@,
        config.down_channel,
    );
    if channels is Some {
        channels
    } else if config.defmt is None && first_defmt(config.up_specs@, config.up_specs@.len() as int)
        is Some {
        Some(
            "missing defmt table for channel "@ + decimal(
                first_defmt(config.up_specs@, config.up_specs@.len() as int)->0 as nat,
            ),
        )
    } else if log_is_refused(config) {
        Some("--log-format raw with multiple up channels requires --log-per-channel"@)
    } else {
        None
    }
}

/// The keyboard is read: there is a down channel and a terminal.
pub open spec fn reads_keyboard(
    config: SessionConfig,
    down_channels: Seq<ChannelInfo>,
    terminals: Terminals,
) -> bool {
    match config.down_channel {
        Some(number) => channel_exists(down_channels, number) && terminals.stdin,
        None => false,
    }
}

/// A session that starts. It asks the target's shell for a prompt where the
/// keyboard is read.
pub open spec fn started(
    config: SessionConfig,
    down_channels: Seq<ChannelInfo>,
    terminals: Terminals,
    version: Seq<char>,
) -> SessionView {
    let several = config.up_specs@.len() > 1;
    let stdin_setup = reads_keyboard(config, down_channels, terminals);
    let color = match config.color {
        ColorMode::Always => true,
        ColorMode::Never => false,
        ColorMode::Auto => terminals.stdout && !terminals.no_color,
    };
    let state = RenderView {
        timestamps: config.timestamps,
        local_echo: false,
        line_start: true,
        defmt_decode_warnings: 0,
        color,
        channel_labels: several,
        last_channel: None,
        streams: Seq::empty(),
        foreground: None,
        interactive: terminals.stdout,
    };
    let output = if terminals.stdout {
        encode_utf8("brtt "@) + encode_utf8(version) + encode_utf8(
            "\r\nPress ctrl-t ? for help\r\nConnected to target\r\n"@,
        )
    } else {
        Seq::empty()
    };
    SessionView {
        config,
        readers: config.up_specs@.map_values(
            |spec: ChannelSpec| fresh_reader(spec, optional_defmt(&config)),
        ),
        context: ContextView {
            screen: Screen { state, output },
            log: match config.log {
                Some(path) => Some(
                    LogView {
                        path,
                        per_channel: config.log_per_channel,
                        format: config.log_format,
                        timestamps: false,
                        streams: Seq::empty(),
                        text_pending: Seq::empty(),
                        writes: Seq::empty(),
                    },
                ),
                None => None,
            },
            include_channel: several && !config.log_per_channel,
            filters: match config.defmt_filters {
                Some(filters) => Some(filters_view(filters@)),
                None => None,
            },
        },
        down: if stdin_setup {
            seq![10u8]
        } else {
            Seq::empty()
        },
        dropped: 0,
        escape: EscapeState::Normal,
        stdin_setup,
        phase: Phase::Polling(Poll::start()),
    }
}

/// The defmt table of a session.
pub open spec fn optional_defmt(config: &SessionConfig) -> Option<&DefmtData> {
    match &config.defmt {
        Some(data) => Some(data),
        None => None,
    }
}

proof fn lemma_first_defmt_stays(specs: Seq<ChannelSpec>, count: int, longer: int)
    requires
        count <= longer,
        first_defmt(specs, count) is Some,
    ensures
        first_defmt(specs, longer) == first_defmt(specs, count),
    decreases longer - count,
{
    if count < longer {
        lemma_first_defmt_stays(specs, count, longer - 1);
    }
}

/// Opens the up channels.
fn open_readers<'t>(config: &'t SessionConfig) -> (result: Result<Vec<UpChannelReader<'t>>, String>)
    ensures
        match result {
            Ok(readers) => (config.defmt is Some || first_defmt(
                config.up_specs@,
                config.up_specs@.len() as int,
            ) is None) && readers_view(readers@) == config.up_specs@.map_values(
                |spec: ChannelSpec| fresh_reader(spec, optional_defmt(config)),
            ) && (forall|i: int| 0 <= i < readers@.len() ==> (#[trigger] readers@[i]).wf()),
            Err(message) => config.defmt is None && match first_defmt(
                config.up_specs@,
                config.up_specs@.len() as int,
            ) {
                Some(index) => message@ == "missing defmt table for channel "@ + decimal(
                    index as nat,
                ),
                None => false,
            },
        },
{
    let defmt = match &config.defmt {
        Some(data) => Some(data),
        None => None,
    };
    let ghost wanted = config.up_specs@.map_values(
        |spec: ChannelSpec| fresh_reader(spec, optional_defmt(config)),
    );
    let mut readers: Vec<UpChannelReader<'t>> = Vec::new();
    let mut index: usize = 0;
    while index < config.up_specs.len()
        invariant
            index <= config.up_specs@.len(),
            readers@.len() == index,
            defmt == optional_defmt(config),
            wanted == config.up_specs@.map_values(
                |spec: ChannelSpec| fresh_reader(spec, optional_defmt(config)),
            ),
            config.defmt is Some || first_defmt(config.up_specs@, index as int) is None,
            forall|i: int|
                0 <= i < index ==> (#[trigger] readers@[i]).wf() && readers@[i]@ == wanted[i],
        decreases config.up_specs@.len() - index,
    {
        match UpChannelReader::new(config.up_specs[index], defmt) {
            Ok(reader) => readers.push(reader),
            Err(message) => {
                proof {
                    lemma_first_defmt_stays(
                        config.up_specs@,
                        index + 1,
                        config.up_specs@.len() as int,
                    );
                }
                return Err(message);
            },
        }
        index += 1;
    }
    assert(readers_view(readers@) =~= wanted);
    Ok(readers)
}

/// Opens the log.
fn open_logger(config: &SessionConfig) -> (result: Result<Option<Logger>, String>)
    ensures
        match result {
            Ok(logger) => !log_is_refused(*config) && (logger is Some) == (config.log is Some) && (
            logger matches Some(logger) ==> logger.wf() && logger@ == (LogView {
                path: config.log->0,
                per_channel: config.log_per_channel,
                format: config.log_format,
                timestamps: false,
                streams: Seq::empty(),
                text_pending: Seq::empty(),
                writes: Seq::empty(),
            })),
            Err(message) => log_is_refused(*config) && message@
                == "--log-format raw with multiple up channels requires --log-per-channel"@,
        },
{
    let path = match &config.log {
        Some(path) => Some(path.clone()),
        None => None,
    };
    Logger::new(path, config.log_per_channel, config.log_format, config.up_specs.len())
}

impl<'t> Session<'t> {
    /// Starts a session on the channels of a target.
    pub fn start(
        config: &'t SessionConfig,
        up_channels: &[ChannelInfo],
        down_channels: &[ChannelInfo],
        terminals: Terminals,
        version: &str,
    ) -> (result: Result<Self, String>)
        requires
            config.up_specs@.len() > 0,
        ensures
            match result {
                Ok(session) => start_problem(*config, up_channels@, down_channels@) is None
                    && session.wf() && session@ == started(
                    *config,
                    down_channels@,
                    terminals,
                    version@,
                ),
                Err(message) => start_problem(*config, up_channels@, down_channels@) == Some(
                    message@,
                ),
            },
    {
        if let Err(message) = validate_channels(up_channels, down_channels, config) {
            return Err(message);
        }
        let readers = match open_readers(config) {
            Ok(readers) => readers,
            Err(message) => {
                return Err(message);
            },
        };
        let logger = match open_logger(config) {
            Ok(logger) => logger,
            Err(message) => {
                return Err(message);
            },
        };
        let several = config.up_specs.len() > 1;
        let mut state = SessionState::new();
        state.timestamps = config.timestamps;
        state.interactive = terminals.stdout;
        state.channel_labels = several;
        state.color = uses_color(config.color, terminals.stdout, terminals.no_color);
        let stdin_setup = match config.down_channel {
            Some(number) => channel_by_number(down_channels, number).is_some() && terminals.stdin,
            None => false,
        };
        let mut down = DownBuffer::new();
        if stdin_setup {
            let mut prompt: Vec<u8> = Vec::new();
            prompt.push(10);
            down.push(&prompt);
            assert(down.bytes@ =~= seq![10u8]);
        }
        let mut output: Vec<u8> = Vec::new();
        if terminals.stdout {
            write_session_banner(&mut output, version);
            assert(Seq::<u8>::empty() + encode_utf8("brtt "@) =~= encode_utf8("brtt "@));
        }
        let filters = match &config.defmt_filters {
            Some(filters) => Some(filters),
            None => None,
        };
        let session = Session {
            config,
            readers,
            render: OutputContext {
                state,
                logger,
                include_channel: several && !config.log_per_channel,
                filters,
                output,
            },
            down,
            escape: EscapeState::Normal,
            stdin_setup,
            phase: Phase::Polling(Self::begin_poll()),
        };
        assert(session@ == started(*config, down_channels@, terminals, version@));
        assert(session@.readers.len() == config.up_specs@.len());
        Ok(session)
    }
}

/// The most bytes that a key stands for.
pub const MAX_KEY_BYTES: u64 = 8;

/// A key stands for a few bytes at most.
pub proof fn law_keys_are_short(state: EscapeState, key: KeyEvent)
    ensures
        handled(state, key).1 matches ActionView::Send(bytes) ==> bytes.len() <= MAX_KEY_BYTES,
{
    if let KeyCode::Char(c) = key.code {
        let text = seq![c];
        assert(text.drop_first() =~= Seq::<char>::empty());
        assert(encode_utf8(text.drop_first()).len() == 0);
        assert(encode_utf8(text) == encode_scalar(c as u32) + encode_utf8(text.drop_first()));
        assert(encode_utf8(text).len() <= 4);
    }
}

/// A round reads no more than its budget, and comes to its end: each read that
/// gives bytes takes from the budget, each other passes the turn on, and the
/// channels are gone through again only after one gave bytes.
pub proof fn law_rounds_are_bounded(poll: Poll, count: nat, terminal: bool, channels: nat)
    requires
        poll.wf(),
        poll.reads(channels),
        channels <= usize::MAX,
        0 < count <= poll.max(),
    ensures
        poll.took(count, terminal).wf(),
        poll.took(count, terminal).bytes <= RTT_READ_BUDGET_PER_POLL,
        poll.took(count, terminal).budget < poll.budget,
        poll.passed_on().budget == poll.budget && poll.passed_on().reader == poll.reader + 1,
        poll.passed_on().repeats(channels) ==> poll.made_progress,
        !poll.again().made_progress && poll.again().budget == poll.budget,
{
}

/// Every channel has its turn: while the budget lasts, the channel behind the one
/// that was read is read next, and after the last one the first again where one of
/// them gave bytes.
pub proof fn law_every_channel_has_its_turn(session: SessionView, poll: Poll)
    requires
        session.phase == Phase::Polling(poll.passed_on()),
        poll.reader < session.readers.len() <= usize::MAX,
        poll.budget > 0,
    ensures
        poll.reader + 1 < session.readers.len() ==> session.next() == session.reading(
            poll.passed_on(),
        ),
        poll.reader + 1 == session.readers.len() && poll.made_progress ==> session.next()
            == session.reading(poll.passed_on().again()),
{
}

/// A session that is busy does not wait for keys, and one that is idle waits no
/// longer than its poll interval.
pub proof fn law_waits_are_bounded(session: SessionView)
    ensures
        session.next().1 matches Action::PollInput { timeout } ==> timeout <= session.config.poll_interval,
        session.next().1 matches Action::Sleep { millis } ==> millis <= session.config.poll_interval,
        session.phase == (Phase::Input { had_data: true }) ==> {
            &&& session.next().1 !is Sleep
            &&& session.next().1 matches Action::PollInput { timeout } ==> timeout == 0
        },
{
}

/// Bytes are sent only where some wait and a down channel is wanted.
pub proof fn law_nothing_is_sent_without_cause(session: SessionView)
    ensures
        session.next().1 matches Action::Send { channel } ==> session.down.len() > 0
            && session.config.down_channel == Some(channel),
        session.next().1 is PollInput ==> session.down.len() < MAX_DOWN_BUFFER_BYTES,
{
}

/// After a restart of the target nothing is left of what came before: no typed
/// bytes, no unfinished line, no terminal state, and decoders that have had no
/// data.
pub proof fn law_restart_keeps_nothing(session: SessionView, wall: i64, i: int)
    requires
        0 <= i < session.readers.len(),
    ensures
        session.restarted(wall).down.len() == 0,
        session.restarted(wall).context.screen.state.foreground is None,
        session.restarted(wall).context.screen.state.streams.len() == 0,
        session.restarted(wall).readers[i].defmt matches Some(defmt) ==> defmt.calls.len() == 0
            && defmt.buffered == 0,
        session.restarted(wall).readers[i].spec == session.readers[i].spec,
{
}

/// A command leaves the unfinished line on the screen.
pub proof fn law_commands_keep_the_unfinished_line(
    screen: Screen,
    command: SessionCommand,
    config: SessionConfig,
    wall: i64,
)
    ensures
        screen.commanded(command, config, wall).state.foreground == screen.state.foreground,
        screen.commanded(command, config, wall).state.streams == screen.state.streams,
{
    if let Some(saved) = screen.state.foreground {
        law_settings_are_kept(
            screen.erased().command_output(command, config).at_line_start(),
            saved.1,
            Some(saved.0),
            wall,
            None,
        );
    }
}

/// A command other than quit and reset, carried out on a session, changes what is
/// written and where the output stands, and of the settings only its own switch.
pub proof fn lemma_commands_turn_their_switch(
    session: SessionView,
    command: SessionCommand,
    wall: i64,
)
    requires
        command != SessionCommand::Quit,
        command != SessionCommand::ResetTarget,
    ensures
        ({
            let after = session.commanded(command, wall);
            let state = after.context.screen.state;
            let before = session.context.screen.state;
            after == (SessionView {
                context: ContextView {
                    screen: Screen {
                        state: RenderView {
                            timestamps: if command == SessionCommand::ToggleTimestamps {
                                !before.timestamps
                            } else {
                                before.timestamps
                            },
                            local_echo: if command == SessionCommand::ToggleLocalEcho {
                                !before.local_echo
                            } else {
                                before.local_echo
                            },
                            line_start: state.line_start,
                            last_channel: state.last_channel,
                            ..before
                        },
                        output: after.context.screen.output,
                    },
                    ..session.context
                },
                phase: Phase::Sending,
                ..session
            })
        }),
{
    let screen = session.context.screen;
    if let Some(saved) = screen.state.foreground {
        law_settings_are_kept(
            screen.erased().command_output(command, session.config).at_line_start(),
            saved.1,
            Some(saved.0),
            wall,
            None,
        );
    }
}

/// A switch that is turned by two commands stands as before, and so does all else
/// of the session but what has been written and where the output stands.
pub proof fn law_switches_turn_back(
    session: SessionView,
    command: SessionCommand,
    wall: i64,
    later: i64,
)
    requires
        command == SessionCommand::ToggleTimestamps || command == SessionCommand::ToggleLocalEcho,
    ensures
        ({
            let after = session.commanded(command, wall).commanded(command, later);
            let state = after.context.screen.state;
            after == (SessionView {
                context: ContextView {
                    screen: Screen {
                        state: RenderView {
                            line_start: state.line_start,
                            last_channel: state.last_channel,
                            ..session.context.screen.state
                        },
                        output: after.context.screen.output,
                    },
                    ..session.context
                },
                phase: Phase::Sending,
                ..session
            })
        }),
{
    lemma_commands_turn_their_switch(session, command, wall);
    lemma_commands_turn_their_switch(session.commanded(command, wall), command, later);
}

/// A session ends by the quit command and by no other key.
pub proof fn law_only_quit_ends(session: SessionView, key: KeyEvent, wall: i64)
    ensures
        session.typed(key, wall).phase == Phase::Ended <==> handled(session.escape, key).1
            == ActionView::Command(SessionCommand::Quit),
{
}

/// What is typed waits behind what was typed before, and is shown only where local
/// echo is on.
pub proof fn law_typed_bytes_wait_in_order(session: SessionView, bytes: Seq<u8>, wall: i64)
    requires
        session.down.len() + bytes.len() <= MAX_DOWN_BUFFER_BYTES,
    ensures
        session.sends(bytes, wall).down == session.down + bytes,
        session.sends(bytes, wall).dropped == session.dropped,
        !session.context.screen.state.local_echo ==> session.sends(bytes, wall).context
            == session.context,
{
    assert(bytes.take(bytes.len() as int) =~= bytes);
}

/// A round reads the channels in their order, at most four kibibytes at once and no
/// more than is left of the budget. Behind the last channel it starts with the first
/// again where a channel gave bytes and some of the budget is left. A round that read
/// something brings it to screen and log; one that read nothing goes on with the
/// keyboard.
pub proof fn law_rounds_read_in_turn(session: SessionView, poll: Poll)
    requires
        session.phase == Phase::Polling(poll),
        session.readers.len() > 0,
    ensures
        ({
            let max: usize = if poll.budget < 4096 {
                poll.budget
            } else {
                4096
            };
            let (phase, action) = session.next();
            if poll.reader < session.readers.len() && poll.budget > 0 {
                &&& phase == Phase::Polling(poll)
                &&& action == (Action::Read {
                    channel: session.readers[poll.reader as int].channel_number,
                    max,
                })
            } else if poll.made_progress && poll.budget > 0 {
                &&& phase == Phase::Polling(Poll { reader: 0, made_progress: false, ..poll })
                &&& action == (Action::Read { channel: session.readers[0].channel_number, max })
            } else if poll.bytes > 0 || poll.messages > 0 {
                &&& phase == Phase::Flushing
                &&& action == Action::Flush
            } else if session.stdin_setup && session.down.len() < 65536 {
                &&& phase == (Phase::Input { had_data: false })
                &&& action == (Action::PollInput { timeout: session.config.poll_interval })
            } else {
                &&& phase == (Phase::Input { had_data: false })
                &&& action == (Action::Sleep { millis: session.config.poll_interval })
            }
        }),
{
}

/// What waits is sent to the down channel. Where nothing waits, or there is no down
/// channel, a new round begins with the first channel and the whole budget.
pub proof fn law_rounds_begin_when_nothing_waits(session: SessionView)
    requires
        session.phase == Phase::Sending,
        session.readers.len() > 0,
    ensures
        ({
            let (phase, action) = session.next();
            if session.config.down_channel is Some && session.down.len() > 0 {
                &&& phase == Phase::Sending
                &&& action == (Action::Send { channel: session.config.down_channel->0 })
            } else {
                &&& phase == Phase::Polling(
                    Poll { reader: 0, made_progress: false, budget: 65536, bytes: 0, messages: 0 },
                )
                &&& action == (Action::Read {
                    channel: session.readers[0].channel_number,
                    max: 4096,
                })
            }
        }),
{
}

/// Each phase has its action: a channel that still holds frames is decoded, a target
/// that restarted is attached to, output is flushed, a reset is done, a session that
/// has ended is left. A busy session looks at the keyboard without waiting, and
/// without a keyboard goes on with what waits.
pub proof fn law_phases_have_their_actions(session: SessionView, poll: Poll)
    ensures
        session.phase == Phase::Draining(poll) ==> session.next() == (
            Phase::Draining(poll),
            Action::Decode,
        ),
        session.phase == Phase::Reattaching ==> session.next() == (
            Phase::Reattaching,
            Action::Reattach,
        ),
        session.phase == Phase::Flushing ==> session.next() == (Phase::Flushing, Action::Flush),
        session.phase == Phase::Resetting ==> session.next() == (Phase::Resetting, Action::Reset),
        session.phase == Phase::Ended ==> session.next() == (Phase::Ended, Action::End),
        session.phase == (Phase::Input { had_data: true }) ==> session.next() == (
        if session.stdin_setup && session.down.len() < 65536 {
            (Phase::Input { had_data: true }, Action::PollInput { timeout: 0 })
        } else {
            (SessionView { phase: Phase::Sending, ..session }).next()
        }),
        session.phase == (Phase::Input { had_data: false }) ==> session.next() == (
        if session.stdin_setup && session.down.len() < 65536 {
            (
                Phase::Input { had_data: false },
                Action::PollInput { timeout: session.config.poll_interval },
            )
        } else {
            (
                Phase::Input { had_data: false },
                Action::Sleep { millis: session.config.poll_interval },
            )
        }),
{
}

/// Bytes of a terminal channel are logged and shown as that channel's. They are taken
/// from the budget, they count as one chunk of output, and the next channel has its
/// turn. All else of the session stays.
pub proof fn law_terminal_bytes_are_shown(
    session: SessionView,
    poll: Poll,
    bytes: Seq<u8>,
    wall: i64,
)
    requires
        poll.reader < session.readers.len() <= usize::MAX,
        session.readers[poll.reader as int].spec.mode == ChannelEncoding::Terminal,
        0 < bytes.len() <= poll.budget,
        poll.bytes + bytes.len() <= usize::MAX,
        poll.messages < usize::MAX,
    ensures
        ({
            let index = session.readers[poll.reader as int].spec.index;
            let after = session.read(poll, bytes, wall);
            &&& after == (SessionView { context: after.context, phase: after.phase, ..session })
            &&& after.context == session.context.log_raw(index, bytes).terminal_event(
                index,
                bytes,
                wall,
            )
            &&& after.phase matches Phase::Polling(next)
            &&& next.reader == poll.reader + 1
            &&& next.made_progress
            &&& next.budget + bytes.len() == poll.budget
            &&& next.bytes == poll.bytes + bytes.len()
            &&& next.messages == poll.messages + 1
        }),
{
}

/// Where a channel gives nothing, a terminal channel passes the turn on, and a defmt
/// channel is decoded further; the session is otherwise as it was.
pub proof fn law_empty_reads_change_nothing(session: SessionView, poll: Poll, wall: i64)
    requires
        poll.reader < session.readers.len() <= usize::MAX,
    ensures
        ({
            let after = session.read(poll, Seq::empty(), wall);
            &&& after == (SessionView { phase: after.phase, ..session })
            &&& session.readers[poll.reader as int].spec.mode == ChannelEncoding::Terminal ==> (
            after.phase matches Phase::Polling(next) && next.reader == poll.reader + 1 && next == (
            Poll { reader: next.reader, ..poll }))
            &&& session.readers[poll.reader as int].spec.mode == ChannelEncoding::Defmt
                ==> after.phase == Phase::Draining(poll)
        }),
{
}

/// Bytes of a defmt channel go to a raw log as they came and to the channel's own
/// decoder; what comes out is shown as that channel's. They are taken from the
/// budget. The channel keeps its turn while it holds more frames than are decoded at
/// once. No other channel changes.
pub proof fn law_defmt_bytes_are_decoded(
    session: SessionView,
    poll: Poll,
    bytes: Seq<u8>,
    wall: i64,
    other: int,
)
    requires
        poll.reader < session.readers.len() <= usize::MAX,
        session.readers[poll.reader as int].spec.mode == ChannelEncoding::Defmt,
        session.readers[poll.reader as int].defmt is Some,
        0 < bytes.len() <= poll.budget,
        poll.bytes + bytes.len() <= usize::MAX,
    ensures
        ({
            let reader = session.readers[poll.reader as int];
            let defmt = reader.defmt->0;
            let after = session.read(poll, bytes, wall);
            let took = Poll {
                made_progress: true,
                budget: (poll.budget - bytes.len()) as usize,
                bytes: (poll.bytes + bytes.len()) as usize,
                ..poll
            };
            &&& after.context == defmt.shown(
                session.context.log_raw(reader.spec.index, bytes),
                reader.spec.index,
                bytes,
                wall,
            )
            &&& after.readers.len() == session.readers.len()
            &&& after.readers[poll.reader as int].defmt == Some(defmt.after(bytes))
            &&& after.readers[poll.reader as int].spec == reader.spec
            &&& 0 <= other < session.readers.len() && other != poll.reader ==> after.readers[other]
                == session.readers[other]
            &&& defmt.result(bytes).hit_frame_limit ==> after.phase == Phase::Draining(took)
            &&& !defmt.result(bytes).hit_frame_limit ==> after.phase == Phase::Polling(
                Poll { reader: (poll.reader + 1) as usize, ..took },
            )
            &&& after.down == session.down && after.dropped == session.dropped
            &&& after.escape == session.escape && after.config == session.config
        }),
{
}

/// Decoding what a channel still holds reads nothing: the budget stays, and nothing
/// goes to a raw log.
pub proof fn law_draining_reads_nothing(session: SessionView, poll: Poll, wall: i64)
    requires
        poll.reader < session.readers.len() <= usize::MAX,
        session.readers[poll.reader as int].defmt is Some,
    ensures
        ({
            let reader = session.readers[poll.reader as int];
            let defmt = reader.defmt->0;
            let after = session.decoding(poll, Seq::empty(), wall);
            &&& after.context == defmt.shown(
                session.context,
                reader.spec.index,
                Seq::empty(),
                wall,
            )
            &&& after.readers[poll.reader as int].defmt == Some(defmt.after(Seq::empty()))
            &&& defmt.result(Seq::empty()).hit_frame_limit ==> after.phase == Phase::Draining(poll)
            &&& !defmt.result(Seq::empty()).hit_frame_limit ==> after.phase == Phase::Polling(
                Poll { reader: (poll.reader + 1) as usize, ..poll },
            )
        }),
{
}

/// After a restart of the target by itself a new round begins, and at a terminal a
/// notice is shown; after a reset that the user asked for the notice is shown in any
/// case, and the next output starts a line.
pub proof fn law_restarts_are_announced(session: SessionView, wall: i64)
    ensures
        ({
            let before = session.context.target_restarted(wall);
            let alone = session.reattached(wall);
            let asked = session.reset(wall);
            &&& alone.phase == Phase::Polling(
                Poll { reader: 0, made_progress: false, budget: 65536, bytes: 0, messages: 0 },
            )
            &&& alone.context.screen.output == before.screen.output + (
            if before.screen.state.interactive {
                encode_utf8("\r\nRTT control block changed; reattached to target.\r\n"@)
            } else {
                Seq::empty()
            })
            &&& alone.context.log == before.log
            &&& asked.phase == Phase::Sending
            &&& asked.context.screen.output == before.screen.output + encode_utf8(
                "\r\nTarget reset.\r\n"@,
            )
            &&& asked.context.screen.state.line_start
            &&& asked.context.log == before.log
            &&& alone.down.len() == 0 && asked.down.len() == 0
            &&& alone.config == session.config && asked.config == session.config
            &&& alone.escape == session.escape && asked.escape == session.escape
        }),
{
    let before = session.context.target_restarted(wall);
    assert(before.screen.output + Seq::<u8>::empty() =~= before.screen.output);
}

/// Typed bytes that find no room are dropped from the end and counted; those that do
/// find room wait in their order. With local echo they are all shown.
pub proof fn law_typed_bytes_beyond_the_room_are_dropped(
    session: SessionView,
    bytes: Seq<u8>,
    wall: i64,
)
    requires
        session.down.len() <= 65536,
        session.dropped + bytes.len() <= u64::MAX,
    ensures
        ({
            let after = session.sends(bytes, wall);
            let taken = after.down.len() - session.down.len();
            &&& after.down == session.down + bytes.take(taken)
            &&& taken == bytes.len() || after.down.len() == 65536
            &&& 0 <= taken <= bytes.len()
            &&& after.down.len() <= 65536
            &&& after.dropped == session.dropped + (bytes.len() - taken)
            &&& session.context.screen.state.local_echo ==> after.context.screen
                == session.context.screen.bytes(bytes, None, wall, None)
            &&& after.context.log == session.context.log
            &&& after.phase == Phase::Sending
        }),
{
}

/// What a key stands for is done: bytes are sent, a command is carried out, and a key
/// that stands for nothing leaves the session as it is.
pub proof fn law_keys_are_carried_out(session: SessionView, key: KeyEvent, wall: i64)
    ensures
        ({
            let (escape, action) = handled(session.escape, key);
            let after = session.typed(key, wall);
            let waiting = SessionView { escape, ..session };
            &&& after.escape == escape
            &&& action matches ActionView::Send(bytes) ==> after == waiting.sends(bytes, wall)
            &&& action matches ActionView::Command(command) ==> after == waiting.commanded(
                command,
                wall,
            )
            &&& action == ActionView::Ignore ==> after.down == session.down && after.context
                == session.context && after.phase == Phase::Sending
        }),
{
}

/// The commands that quit and reset show nothing of their own: the one ends the
/// session, the other takes the unfinished line back before the reset.
pub proof fn law_quit_and_reset(session: SessionView, wall: i64)
    ensures
        session.commanded(SessionCommand::Quit, wall) == (SessionView {
            phase: Phase::Ended,
            ..session
        }),
        session.commanded(SessionCommand::ResetTarget, wall).phase == Phase::Resetting,
        session.commanded(SessionCommand::ResetTarget, wall).context.screen.output
            == session.context.screen.output + (if session.context.screen.state.interactive
            && session.context.screen.state.foreground is Some {
            encode_utf8("\r\x1b[2K"@)
        } else {
            Seq::empty()
        }),
        session.commanded(SessionCommand::ResetTarget, wall).context.log == session.context.log,
        session.commanded(SessionCommand::ResetTarget, wall).down == session.down,
{
    law_unfinished_lines_are_taken_back(session.context.screen);
    assert(session.context.screen.output + Seq::<u8>::empty() =~= session.context.screen.output);
}

/// Where no line is unfinished, a command shows its own output and no more: the help
/// text, the state that its switch has been turned to, the settings, or the sequences
/// that empty the screen.
pub proof fn law_commands_show_their_output(session: SessionView, wall: i64)
    requires
        session.context.screen.state.foreground is None,
    ensures
        ({
            let screen = session.context.screen;
            let timestamps = session.commanded(SessionCommand::ToggleTimestamps, wall);
            let echo = session.commanded(SessionCommand::ToggleLocalEcho, wall);
            let help = session.commanded(SessionCommand::Help, wall);
            let cleared = session.commanded(SessionCommand::ClearScreen, wall);
            let settings = session.commanded(SessionCommand::ShowConfig, wall);
            &&& timestamps.context.screen.output == screen.output + encode_utf8(
                if screen.state.timestamps {
                    "\r\nTimestamps: off\r\n"@
                } else {
                    "\r\nTimestamps: on\r\n"@
                },
            )
            &&& echo.context.screen.output == screen.output + encode_utf8(
                if screen.state.local_echo {
                    "\r\nLocal echo: off\r\n"@
                } else {
                    "\r\nLocal echo: on\r\n"@
                },
            )
            &&& timestamps.context.screen.state.timestamps == !screen.state.timestamps
            &&& echo.context.screen.state.local_echo == !screen.state.local_echo
            &&& help.context.screen.output == screen.output + encode_utf8(help_text())
            &&& cleared.context.screen.output == screen.output + encode_utf8("\x1b[2J\x1b[1;1H"@)
            &&& settings.context.screen.output == with_config(
                screen.output,
                session.config,
                screen.state.timestamps,
                screen.state.local_echo,
            )
            &&& help.context.screen.state.line_start
            &&& help.phase == Phase::Sending
        }),
{
    let screen = session.context.screen;
    law_unfinished_lines_are_taken_back(screen);
    law_switches_are_shown(screen.output);
    law_cleared_screens_start_at_the_top(screen.output);
    assert(screen.output + Seq::<u8>::empty() =~= screen.output);
}

/// A session can start where every channel that is asked for is there, there is a
/// table where a defmt channel is asked for, and a raw log has a file for each
/// channel; and only there.
pub proof fn law_sessions_start_where_nothing_is_missing(
    config: SessionConfig,
    up_channels: Seq<ChannelInfo>,
    down_channels: Seq<ChannelInfo>,
)
    ensures
        start_problem(config, up_channels, down_channels) is None <==> {
            &&& forall|i: int|
                0 <= i < config.up_specs@.len() ==> has_channel(
                    up_channels,
                    (#[trigger] config.up_specs@[i]).index as usize,
                )
            &&& config.down_channel matches Some(number) ==> has_channel(down_channels, number)
            &&& config.defmt is None ==> forall|i: int|
                0 <= i < config.up_specs@.len() ==> (#[trigger] config.up_specs@[i]).mode
                    == ChannelEncoding::Terminal
            &&& !(config.log is Some && config.log_format == LogFormat::Raw
                && !config.log_per_channel && config.up_specs@.len() > 1)
        },
{
    law_missing_channels_are_a_problem(
        up_channels,
        down_channels,
        config.up_specs@,
        config.down_channel,
    );
    lemma_first_defmt(config.up_specs@, config.up_specs@.len() as int);
}

proof fn lemma_first_defmt(specs: Seq<ChannelSpec>, count: int)
    requires
        0 <= count <= specs.len(),
    ensures
        first_defmt(specs, count) is None <==> forall|i: int|
            0 <= i < count ==> (#[trigger] specs[i]).mode == ChannelEncoding::Terminal,
    decreases count,
{
    if count > 0 {
        lemma_first_defmt(specs, count - 1);
    }
}

/// The defmt channel that a missing table is reported for is the first of them.
pub proof fn law_first_defmt_channel_is_named(specs: Seq<ChannelSpec>, i: int)
    requires
        0 <= i < specs.len(),
        specs[i].mode == ChannelEncoding::Defmt,
        forall|j: int| 0 <= j < i ==> (#[trigger] specs[j]).mode == ChannelEncoding::Terminal,
    ensures
        first_defmt(specs, specs.len() as int) == Some(specs[i].index),
{
    lemma_first_defmt(specs, i);
    lemma_first_defmt_stays(specs, i + 1, specs.len() as int);
}

/// A session starts with the settings that were asked for. Channels are labelled, and
/// tagged in a log that they share, where there are several. Colours are used where
/// they are asked for, and by themselves at a terminal whose user has not turned them
/// off. The keyboard is read where it is a terminal and the down channel is there;
/// the target's shell is then asked for a prompt by a line feed. At a terminal a
/// banner is shown.
pub proof fn law_sessions_start_as_asked(
    config: SessionConfig,
    down_channels: Seq<ChannelInfo>,
    terminals: Terminals,
    version: Seq<char>,
    i: int,
)
    ensures
        ({
            let session = started(config, down_channels, terminals, version);
            let state = session.context.screen.state;
            let several = config.up_specs@.len() > 1;
            let typed = terminals.stdin && config.down_channel is Some && has_channel(
                down_channels,
                config.down_channel->0,
            );
            &&& session.config == config
            &&& state.timestamps == config.timestamps && !state.local_echo && state.line_start
            &&& state.channel_labels == several
            &&& state.interactive == terminals.stdout
            &&& config.color == ColorMode::Always ==> state.color
            &&& config.color == ColorMode::Never ==> !state.color
            &&& config.color == ColorMode::Auto ==> state.color == (terminals.stdout
                && !terminals.no_color)
            &&& state.streams.len() == 0 && state.foreground is None && state.last_channel is None
            &&& state.defmt_decode_warnings == 0
            &&& session.context.include_channel == (several && !config.log_per_channel)
            &&& session.context.filters is Some <==> config.defmt_filters is Some
            &&& config.defmt_filters matches Some(filters) ==> session.context.filters == Some(
                filters_view(filters@),
            )
            &&& session.context.log is Some <==> config.log is Some
            &&& session.context.log matches Some(log) ==> log.per_channel == config.log_per_channel
                && log.format == config.log_format && log.path == config.log->0 && !log.timestamps
                && log.writes.len() == 0
            &&& session.stdin_setup == typed
            &&& session.down == (if typed {
                seq![10u8]
            } else {
                Seq::empty()
            })
            &&& session.context.screen.output == (if terminals.stdout {
                encode_utf8(
                    "brtt "@ + version + "\r\nPress ctrl-t ? for help\r\nConnected to target\r\n"@,
                )
            } else {
                Seq::empty()
            })
            &&& session.dropped == 0 && session.escape == EscapeState::Normal
            &&& session.phase == Phase::Polling(
                Poll { reader: 0, made_progress: false, budget: 65536, bytes: 0, messages: 0 },
            )
            &&& session.readers.len() == config.up_specs@.len()
            &&& 0 <= i < config.up_specs@.len() ==> session.readers[i].spec == config.up_specs@[i]
                && session.readers[i].channel_number == config.up_specs@[i].index
        }),
{
    law_channels_are_found_by_number(
        down_channels,
        config.down_channel->0,
    );
    lemma_encode_concat("brtt "@, version);
    lemma_encode_concat(
        "brtt "@ + version,
        "\r\nPress ctrl-t ? for help\r\nConnected to target\r\n"@,
    );
}

} // verus!
