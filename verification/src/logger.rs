//! What a session's log files hold.
//!
//! The log decides what goes to which file; the writes that are due are handed
//! out to whoever holds the files.
use crate::channels::{
    entry_or, find_channel, law_kept_entry, lemma_place, lemma_same_places, one_each, place_of,
    with_entry,
};
use crate::cli::LogFormat;
use crate::clock::{push_stamp, stamp};
use crate::lines::{
    cut, in_one_line, joined, law_cut_in_parts, law_cut_loses_nothing, lemma_cut_one_line,
};
use crate::render::{channel_tag, law_tags_hold_the_number, push_channel_tag};
use crate::terminal::{
    ascii_text, blank_line, chunk_is_known, ends_a_line, is_narrow, is_plain, is_printable,
    is_seven_bit, law_printable_line_is_printed, law_requests_in_parts, law_text_line_is_kept,
    lemma_earlier_lines, may_be_cut, plain_actions, prints, terminal_actions, DecodedStream,
    TermAction, TermView, MAX_TERMINAL_COLUMNS,
};
use crate::text::{
    decimal, lemma_encode_concat, lines_view, push_bytes, push_decimal, push_str,
};
use vstd::prelude::*;
use vstd::slice::slice_subrange;
use vstd::utf8::*;

verus! {

/// Bytes that are due to a log file: a channel's own, or the one that all share.
pub struct LogWrite {
    pub file: Option<u32>,
    pub bytes: Vec<u8>,
}

/// A channel's terminal output in the log.
pub struct LogStream {
    pub terminal: TermView,
    pub feed: Seq<Seq<u8>>,
    pub include_channel: bool,
}

impl LogStream {
    /// A channel that has said nothing.
    pub open spec fn fresh(include_channel: bool) -> LogStream {
        LogStream { terminal: blank_line(), feed: Seq::empty(), include_channel }
    }

    /// The terminal after a chunk.
    pub open spec fn decoded(self, bytes: Seq<u8>) -> TermView {
        self.terminal.apply_all(terminal_actions(self.feed, bytes))
    }

    /// The state after a chunk, when its lines have been handed out.
    pub open spec fn after(self, bytes: Seq<u8>) -> LogStream {
        LogStream {
            terminal: TermView { complete: Seq::empty(), ..self.decoded(bytes) },
            feed: self.feed.push(bytes),
            ..self
        }
    }
}

/// Lines with a prefix before each.
pub open spec fn prefixed(lines: Seq<Seq<u8>>, prefix: Seq<u8>) -> Seq<u8>
    decreases lines.len(),
{
    if lines.len() == 0 {
        Seq::empty()
    } else {
        prefixed(lines.drop_last(), prefix) + prefix + lines.last()
    }
}

/// The state of a log.
pub struct LogView {
    pub path: std::path::PathBuf,
    pub per_channel: bool,
    pub format: LogFormat,
    pub timestamps: bool,
    pub streams: Seq<(u32, LogStream)>,
    pub text_pending: Seq<(u32, (Seq<u8>, bool))>,
    pub writes: Seq<(Option<u32>, Seq<u8>)>,
}

impl LogView {
    /// The file that a channel is logged to.
    pub open spec fn file_for_channel(self, channel: u32) -> Option<u32> {
        if self.per_channel {
            Some(channel)
        } else {
            None
        }
    }

    /// Bytes are due to a channel's file.
    pub open spec fn write(self, channel: u32, bytes: Seq<u8>) -> LogView {
        LogView { writes: self.writes.push((self.file_for_channel(channel), bytes)), ..self }
    }

    /// What comes before a line: the stamp, then the channel's tag.
    pub open spec fn line_prefix(self, channel: u32, include_channel: bool, wall: i64) -> Seq<u8> {
        (if self.timestamps {
            stamp(wall)
        } else {
            Seq::empty()
        }) + (if include_channel {
            channel_tag(channel)
        } else {
            Seq::empty()
        })
    }

    /// A raw log takes the bytes as they are.
    pub open spec fn write_raw(self, channel: u32, bytes: Seq<u8>) -> LogView {
        if self.format != LogFormat::Raw || bytes.len() == 0 {
            self
        } else {
            self.write(channel, bytes)
        }
    }

    /// A decoded log takes the lines that terminal output finishes.
    pub open spec fn write_terminal(
        self,
        channel: u32,
        bytes: Seq<u8>,
        include_channel: bool,
        wall: i64,
    ) -> LogView {
        if self.format != LogFormat::Decoded || bytes.len() == 0 {
            self
        } else {
            let stream = entry_or(self.streams, channel, LogStream::fresh(include_channel));
            let lines = stream.decoded(bytes).complete;
            let taken = LogView {
                streams: with_entry(self.streams, channel, stream.after(bytes)),
                ..self
            };
            if lines.len() == 0 {
                taken
            } else {
                taken.write(
                    channel,
                    prefixed(lines, self.line_prefix(channel, stream.include_channel, wall)),
                )
            }
        }
    }

    /// A decoded log takes the lines that plain text finishes.
    pub open spec fn write_text(
        self,
        channel: u32,
        bytes: Seq<u8>,
        include_channel: bool,
        wall: i64,
    ) -> LogView {
        if self.format != LogFormat::Decoded || bytes.len() == 0 {
            self
        } else {
            let text = cut(
                entry_or(self.text_pending, channel, (Seq::empty(), include_channel)).0 + bytes,
            );
            let taken = LogView {
                text_pending: with_entry(self.text_pending, channel, (text.rest, include_channel)),
                ..self
            };
            if text.lines.len() == 0 {
                taken
            } else {
                taken.write(
                    channel,
                    prefixed(text.lines, self.line_prefix(channel, include_channel, wall)),
                )
            }
        }
    }

    /// The unfinished terminal lines of the first `count` channels are written,
    /// each with `end` behind it.
    pub open spec fn stream_tails(self, count: int, wall: i64, end: Seq<u8>) -> LogView
        decreases count,
    {
        if count <= 0 {
            self
        } else {
            let before = self.stream_tails(count - 1, wall, end);
            let (channel, stream) = self.streams[count - 1];
            let line = stream.terminal.visible();
            if line.len() == 0 {
                before
            } else {
                before.write(
                    channel,
                    self.line_prefix(channel, stream.include_channel, wall) + line + end,
                )
            }
        }
    }

    /// The unfinished text of the first `count` channels is written, each with
    /// `end` behind it.
    pub open spec fn text_tails(self, count: int, wall: i64, end: Seq<u8>) -> LogView
        decreases count,
    {
        if count <= 0 {
            self
        } else {
            let before = self.text_tails(count - 1, wall, end);
            let (channel, (line, include_channel)) = self.text_pending[count - 1];
            if line.len() == 0 {
                before
            } else {
                before.write(channel, self.line_prefix(channel, include_channel, wall) + line + end)
            }
        }
    }

    /// All that is unfinished is written, with `end` behind each line.
    pub open spec fn tails(self, wall: i64, end: Seq<u8>) -> LogView {
        self.stream_tails(self.streams.len() as int, wall, end).text_tails(
            self.text_pending.len() as int,
            wall,
            end,
        )
    }

    /// Nothing is kept of the lines that were under way.
    pub open spec fn forgotten(self) -> LogView {
        LogView {
            streams: self.streams.map_values(
                |entry: (u32, LogStream)| (entry.0, LogStream::fresh(entry.1.include_channel)),
            ),
            text_pending: self.text_pending.map_values(
                |entry: (u32, (Seq<u8>, bool))| (entry.0, (Seq::<u8>::empty(), entry.1.1)),
            ),
            ..self
        }
    }
}

/// The streams of the channels as values.
pub open spec fn log_streams_view(streams: Seq<(u32, DecodedStream)>) -> Seq<(u32, LogStream)> {
    streams.map_values(|entry: (u32, DecodedStream)| (entry.0, log_stream_view(entry.1)))
}

/// A stream as a value.
pub open spec fn log_stream_view(stream: DecodedStream) -> LogStream {
    LogStream {
        terminal: stream@,
        feed: stream.feed(),
        include_channel: stream.include_channel,
    }
}

/// The unfinished texts of the channels as values.
pub open spec fn pending_view(pending: Seq<(u32, (Vec<u8>, bool))>) -> Seq<
    (u32, (Seq<u8>, bool)),
> {
    pending.map_values(|entry: (u32, (Vec<u8>, bool))| (entry.0, (entry.1.0@, entry.1.1)))
}

/// The writes that are due as values.
pub open spec fn writes_view(writes: Seq<LogWrite>) -> Seq<(Option<u32>, Seq<u8>)> {
    writes.map_values(|write: LogWrite| (write.file, write.bytes@))
}

/// A session's log.
pub struct Logger {
    pub path: std::path::PathBuf,
    pub per_channel: bool,
    pub format: LogFormat,
    pub streams: Vec<(u32, DecodedStream)>,
    pub text_pending: Vec<(u32, (Vec<u8>, bool))>,
    pub timestamps: bool,
    pub writes: Vec<LogWrite>,
}

impl View for Logger {
    type V = LogView;

    open spec fn view(&self) -> LogView {
        LogView {
            path: self.path,
            per_channel: self.per_channel,
            format: self.format,
            timestamps: self.timestamps,
            streams: log_streams_view(self.streams@),
            text_pending: pending_view(self.text_pending@),
            writes: writes_view(self.writes@),
        }
    }
}

impl Logger {
    /// Each channel has one stream, whose line is within its limits and whose finished
    /// lines have been handed out, and one unfinished text.
    pub open spec fn wf(self) -> bool {
        &&& one_each(self.streams@)
        &&& one_each(self.text_pending@)
        &&& forall|i: int|
            0 <= i < self.streams@.len() ==> (#[trigger] self.streams@[i]).1.wf()
                && self.streams@[i].1@.complete.len() == 0
    }

    /// A log that nothing is due to, where one is asked for. One file cannot hold
    /// the raw bytes of several channels.
    pub fn new(
        path: Option<std::path::PathBuf>,
        per_channel: bool,
        format: LogFormat,
        channel_count: usize,
    ) -> (result: Result<Option<Self>, String>)
        ensures
            match path {
                None => result == Ok::<Option<Self>, String>(None),
                Some(path) => if format == LogFormat::Raw && !per_channel && channel_count > 1 {
                    result matches Err(message) && message@
                        == "--log-format raw with multiple up channels requires --log-per-channel"@
                } else {
                    result matches Ok(Some(logger)) && logger.wf() && logger@ == (LogView {
                        path,
                        per_channel,
                        format,
                        timestamps: false,
                        streams: Seq::empty(),
                        text_pending: Seq::empty(),
                        writes: Seq::empty(),
                    })
                },
            },
    {
        match path {
            None => Ok(None),
            Some(path) => {
                if format == LogFormat::Raw && !per_channel && channel_count > 1 {
                    return Err(
                        "--log-format raw with multiple up channels requires --log-per-channel".to_owned(),
                    );
                }
                let logger = Logger {
                    path,
                    per_channel,
                    format,
                    streams: Vec::new(),
                    text_pending: Vec::new(),
                    timestamps: false,
                    writes: Vec::new(),
                };
                assert(logger@.streams =~= Seq::<(u32, LogStream)>::empty());
                assert(logger@.text_pending =~= Seq::<(u32, (Seq<u8>, bool))>::empty());
                assert(logger@.writes =~= Seq::<(Option<u32>, Seq<u8>)>::empty());
                Ok(Some(logger))
            },
        }
    }

    /// Enables or disables timestamp prefixes for decoded log lines.
    ///
    /// Raw logs always preserve the exact RTT bytes and are not affected.
    pub fn set_timestamps(&mut self, enabled: bool)
        ensures
            *final(self) == (Logger { timestamps: enabled, ..*old(self) }),
    {
        self.timestamps = enabled;
    }

    /// Hands out the writes that are due, in their order.
    pub fn take_writes(&mut self) -> (writes: Vec<LogWrite>)
        ensures
            writes_view(writes@) == old(self)@.writes,
            final(self)@ == (LogView { writes: Seq::empty(), ..old(self)@ }),
            old(self).wf() ==> final(self).wf(),
    {
        let mut writes: Vec<LogWrite> = Vec::new();
        writes.append(&mut self.writes);
        assert(writes@ =~= old(self).writes@);
        assert(self@.writes =~= Seq::<(Option<u32>, Seq<u8>)>::empty());
        writes
    }

    fn file_for_channel(&self, channel: u32) -> (file: Option<u32>)
        ensures
            file == self@.file_for_channel(channel),
    {
        if self.per_channel {
            Some(channel)
        } else {
            None
        }
    }

    fn write(&mut self, channel: u32, bytes: Vec<u8>)
        ensures
            final(self)@ == old(self)@.write(channel, bytes@),
            final(self).streams == old(self).streams,
            final(self).text_pending == old(self).text_pending,
    {
        let file = self.file_for_channel(channel);
        self.writes.push(LogWrite { file, bytes });
        assert(self@.writes =~= old(self)@.writes.push((file, bytes@)));
    }

    fn push_line_prefix(&self, output: &mut Vec<u8>, channel: u32, include_channel: bool, wall: i64)
        ensures
            final(output)@ == old(output)@ + self@.line_prefix(channel, include_channel, wall),
    {
        if self.timestamps {
            push_stamp(output, wall);
        }
        if include_channel {
            push_channel_tag(output, channel);
        }
        assert(output@ =~= old(output)@ + self@.line_prefix(channel, include_channel, wall));
    }

    /// Logs bytes as they came, in a raw log.
    pub fn write_raw(&mut self, channel: u32, bytes: &[u8])
        ensures
            final(self)@ == old(self)@.write_raw(channel, bytes@),
            old(self).wf() ==> final(self).wf(),
    {
        if self.format != LogFormat::Raw || bytes.len() == 0 {
            return ;
        }
        let mut copy: Vec<u8> = Vec::new();
        push_bytes(&mut copy, bytes);
        assert(copy@ =~= bytes@);
        self.write(channel, copy);
    }

    /// Logs the lines that a channel's terminal output finishes, in a decoded log.
    pub fn write_terminal(
        &mut self,
        channel: u32,
        bytes: &[u8],
        include_channel: bool,
        wall: i64,
    )
        requires
            old(self).wf(),
        ensures
            final(self).wf(),
            final(self)@ == old(self)@.write_terminal(channel, bytes@, include_channel, wall),
            old(self)@.format == LogFormat::Decoded && bytes@.len() > 0 ==> chunk_is_known(
                entry_or(old(self)@.streams, channel, LogStream::fresh(include_channel)).feed,
                bytes@,
            ),
    {
        if self.format != LogFormat::Decoded || bytes.len() == 0 {
            return ;
        }
        let ghost before = self@;
        let ghost kept = self.streams@;
        proof {
            lemma_same_places(kept, before.streams, channel, kept.len() as int);
            lemma_place(kept, channel, kept.len() as int);
        }
        let place = match find_channel(&self.streams, channel) {
            Some(index) => index,
            None => {
                let index = self.streams.len();
                let mut stream = DecodedStream::new();
                stream.include_channel = include_channel;
                self.streams.push((channel, stream));
                index
            },
        };
        let ghost stream = entry_or(before.streams, channel, LogStream::fresh(include_channel));
        assert(log_stream_view(self.streams@[place as int].1) == stream);
        let ghost opened = self.streams@;
        let complete = self.streams[place].1.consume(bytes);
        let tagged = self.streams[place].1.include_channel;
        assert(self.streams@ == opened.update(place as int, self.streams@[place as int]));
        assert(self@.streams =~= with_entry(before.streams, channel, stream.after(bytes@)));
        if complete.len() == 0 {
            return ;
        }
        let output = self.prefixed_lines(&complete, channel, tagged, wall);
        self.write(channel, output);
    }

    fn prefixed_lines(
        &self,
        lines: &Vec<Vec<u8>>,
        channel: u32,
        include_channel: bool,
        wall: i64,
    ) -> (output: Vec<u8>)
        ensures
            output@ == prefixed(
                lines_view(lines@),
                self@.line_prefix(channel, include_channel, wall),
            ),
    {
        let ghost prefix = self@.line_prefix(channel, include_channel, wall);
        let ghost all = lines_view(lines@);
        let mut output: Vec<u8> = Vec::new();
        let mut index: usize = 0;
        assert(all.take(0) =~= Seq::<Seq<u8>>::empty());
        while index < lines.len()
            invariant
                index <= lines@.len(),
                all == lines_view(lines@),
                prefix == self@.line_prefix(channel, include_channel, wall),
                output@ == prefixed(all.take(index as int), prefix),
            decreases lines@.len() - index,
        {
            assert(all.take(index + 1).drop_last() =~= all.take(index as int));
            assert(all.take(index + 1).last() == lines@[index as int]@);
            self.push_line_prefix(&mut output, channel, include_channel, wall);
            push_bytes(&mut output, &lines[index]);
            index += 1;
        }
        assert(all.take(all.len() as int) =~= all);
        output
    }

    /// Logs the lines that a channel's text finishes, in a decoded log. The rest is
    /// kept until it is finished.
    pub fn write_text(&mut self, channel: u32, bytes: &[u8], include_channel: bool, wall: i64)
        requires
            old(self).wf(),
        ensures
            final(self).wf(),
            final(self)@ == old(self)@.write_text(channel, bytes@, include_channel, wall),
    {
        if self.format != LogFormat::Decoded || bytes.len() == 0 {
            return ;
        }
        let ghost before = self@;
        let ghost kept = self.text_pending@;
        proof {
            lemma_same_places(kept, before.text_pending, channel, kept.len() as int);
            lemma_place(kept, channel, kept.len() as int);
        }
        let ghost old_entry = entry_or(
            before.text_pending,
            channel,
            (Seq::<u8>::empty(), include_channel),
        );
        let place = match find_channel(&self.text_pending, channel) {
            Some(index) => index,
            None => {
                let index = self.text_pending.len();
                self.text_pending.push((channel, (Vec::new(), include_channel)));
                index
            },
        };
        let ghost opened = self.text_pending@;
        assert(opened[place as int].0 == channel);
        let mut pending: Vec<u8> = Vec::new();
        push_bytes(&mut pending, &self.text_pending[place].1.0);
        push_bytes(&mut pending, bytes);
        assert(pending@ =~= old_entry.0 + bytes@);

        let ghost prefix = before.line_prefix(channel, include_channel, wall);
        let mut output: Vec<u8> = Vec::new();
        let mut start: usize = 0;
        assert(pending@.take(0) =~= Seq::<u8>::empty());
        loop
            invariant
                start <= pending@.len(),
                prefix == self@.line_prefix(channel, include_channel, wall),
                cut(pending@.take(start as int)).rest.len() == 0,
                output@ == prefixed(cut(pending@.take(start as int)).lines, prefix),
                (start > 0) == (cut(pending@.take(start as int)).lines.len() > 0),
            ensures
                in_one_line(pending@.skip(start as int)),
            decreases pending@.len() - start,
        {
            let remaining = slice_subrange(pending.as_slice(), start, pending.len());
            match memchr::memchr(10, remaining) {
                Some(offset) => {
                    let end = start + offset + 1;
                    let line = slice_subrange(pending.as_slice(), start, end);
                    self.push_line_prefix(&mut output, channel, include_channel, wall);
                    push_bytes(&mut output, line);
                    proof {
                        let done = pending@.take(start as int);
                        let text = remaining@.take(offset as int);
                        assert(in_one_line(text)) by {
                            assert forall|i: int| 0 <= i < text.len() implies #[trigger] text[i]
                                != 10 by {
                                assert(text[i] == remaining@[i]);
                            }
                        }
                        lemma_cut_one_line(done, text);
                        assert(pending@.take(end as int).drop_last() =~= done + text);
                        assert(cut(done).rest + text =~= text);
                        assert(pending@.take(end as int).last() == remaining@[offset as int]);
                        assert(text.push(10u8) =~= line@);
                        assert(cut(pending@.take(end as int)).lines == cut(done).lines.push(line@));
                        assert(cut(pending@.take(end as int)).lines.drop_last() =~= cut(
                            done,
                        ).lines);
                    }
                    start = end;
                },
                None => {
                    assert(pending@.skip(start as int) =~= remaining@);
                    break ;
                },
            }
        }
        let ghost text = cut(pending@);
        proof {
            let done = pending@.take(start as int);
            let more = pending@.skip(start as int);
            lemma_cut_one_line(done, more);
            assert(done + more =~= pending@);
            assert(text.rest =~= more);
        }
        let rest = pending.split_off(start);
        assert(rest@ =~= text.rest);
        self.text_pending[place] = (channel, (rest, include_channel));
        assert(self.text_pending@ == opened.update(
            place as int,
            (channel, (rest, include_channel)),
        ));
        assert(self@.text_pending =~= with_entry(
            before.text_pending,
            channel,
            (text.rest, include_channel),
        ));
        if start > 0 {
            self.write(channel, output);
        }
    }

    fn write_stream_tails(&mut self, wall: i64, end: &[u8])
        ensures
            final(self)@ == old(self)@.stream_tails(old(self).streams@.len() as int, wall, end@),
            final(self).streams == old(self).streams,
            final(self).text_pending == old(self).text_pending,
    {
        let ghost before = self@;
        let mut index: usize = 0;
        while index < self.streams.len()
            invariant
                index <= self.streams@.len(),
                before == old(self)@,
                self.streams == old(self).streams,
                self.text_pending == old(self).text_pending,
                self.timestamps == old(self).timestamps,
                self@ == before.stream_tails(index as int, wall, end@),
            decreases self.streams@.len() - index,
        {
            assert(before.streams[index as int] == (
                self.streams@[index as int].0,
                log_stream_view(self.streams@[index as int].1),
            ));
            let channel = self.streams[index].0;
            let tagged = self.streams[index].1.include_channel;
            let line = self.streams[index].1.visible_line();
            if line.len() > 0 {
                let mut output: Vec<u8> = Vec::new();
                self.push_line_prefix(&mut output, channel, tagged, wall);
                push_bytes(&mut output, &line);
                push_bytes(&mut output, end);
                assert(output@ =~= before.line_prefix(channel, tagged, wall) + line@ + end@);
                self.write(channel, output);
            }
            index += 1;
        }
    }

    fn write_text_tails(&mut self, wall: i64, end: &[u8])
        ensures
            final(self)@ == old(self)@.text_tails(old(self).text_pending@.len() as int, wall, end@),
            final(self).streams == old(self).streams,
            final(self).text_pending == old(self).text_pending,
    {
        let ghost before = self@;
        let mut index: usize = 0;
        while index < self.text_pending.len()
            invariant
                index <= self.text_pending@.len(),
                before == old(self)@,
                self.streams == old(self).streams,
                self.text_pending == old(self).text_pending,
                self.timestamps == old(self).timestamps,
                self@ == before.text_tails(index as int, wall, end@),
            decreases self.text_pending@.len() - index,
        {
            let ghost entry = self.text_pending@[index as int];
            assert(before.text_pending[index as int] == (entry.0, (entry.1.0@, entry.1.1)));
            let channel = self.text_pending[index].0;
            let tagged = self.text_pending[index].1.1;
            if self.text_pending[index].1.0.len() > 0 {
                let mut output: Vec<u8> = Vec::new();
                self.push_line_prefix(&mut output, channel, tagged, wall);
                push_bytes(&mut output, &self.text_pending[index].1.0);
                push_bytes(&mut output, end);
                assert(output@ =~= before.line_prefix(channel, tagged, wall) + entry.1.0@ + end@);
                self.write(channel, output);
            }
            index += 1;
        }
    }

    /// Writes the lines that are unfinished. They stay under way.
    pub fn flush(&mut self, wall: i64)
        ensures
            final(self)@ == old(self)@.tails(wall, Seq::empty()),
            old(self).wf() ==> final(self).wf(),
    {
        let end: Vec<u8> = Vec::new();
        self.write_stream_tails(wall, &end);
        self.write_text_tails(wall, &end);
        assert(end@ =~= Seq::<u8>::empty());
    }

    /// Finalizes partial lines and clears all per-target terminal state.
    ///
    /// Used when the target restarts so output from a new boot is not merged
    /// with the previous session's partial line.
    pub fn reset(&mut self, wall: i64)
        requires
            old(self).wf(),
        ensures
            final(self).wf(),
            final(self)@ == old(self)@.tails(wall, seq![10u8]).forgotten(),
    {
        let mut end: Vec<u8> = Vec::new();
        end.push(10);
        assert(end@ =~= seq![10u8]);
        self.write_stream_tails(wall, &end);
        self.write_text_tails(wall, &end);
        let ghost written = self@;
        let ghost streams = self.streams@;
        let ghost texts = self.text_pending@;
        let mut index: usize = 0;
        while index < self.streams.len()
            invariant
                index <= streams.len(),
                self.streams@.len() == streams.len(),
                self.text_pending@ == texts,
                self@ == (LogView { streams: self@.streams, ..written }),
                forall|i: int|
                    0 <= i < index ==> (#[trigger] self.streams@[i]).1.wf() && self.streams@[i].0
                        == streams[i].0 && log_stream_view(self.streams@[i].1) == LogStream::fresh(
                        streams[i].1.include_channel,
                    ),
                forall|i: int| index <= i < streams.len() ==> #[trigger] self.streams@[i] == streams[i],
            decreases streams.len() - index,
        {
            let ghost previous = self.streams@;
            self.streams[index].1.reset();
            assert(self.streams@ == previous.update(index as int, self.streams@[index as int]));
            index += 1;
        }
        let mut index: usize = 0;
        let ghost cleared = self.streams@;
        while index < self.text_pending.len()
            invariant
                index <= texts.len(),
                self.text_pending@.len() == texts.len(),
                self.streams@ == cleared,
                self@ == (LogView {
                    streams: self@.streams,
                    text_pending: self@.text_pending,
                    ..written
                }),
                forall|i: int|
                    0 <= i < index ==> (#[trigger] self.text_pending@[i]).0 == texts[i].0
                        && self.text_pending@[i].1.0@ == Seq::<u8>::empty()
                        && self.text_pending@[i].1.1 == texts[i].1.1,
                forall|i: int|
                    index <= i < texts.len() ==> #[trigger] self.text_pending@[i] == texts[i],
            decreases texts.len() - index,
        {
            let ghost previous = self.text_pending@;
            self.text_pending[index].1.0.clear();
            assert(self.text_pending@ == previous.update(
                index as int,
                self.text_pending@[index as int],
            ));
            index += 1;
        }
        assert(self@.streams =~= written.forgotten().streams);
        assert(self@.text_pending =~= written.forgotten().text_pending);
    }
}

/// The name of a channel's own log file, from the parts of the log's name: the
/// channel goes between stem and extension.
pub open spec fn channel_name(
    stem: Option<Seq<u8>>,
    extension: Option<Seq<u8>>,
    channel: u32,
) -> Seq<u8> {
    (match stem {
        Some(stem) => stem,
        None => encode_utf8("log"@),
    }) + encode_utf8(".ch"@) + encode_utf8(decimal(channel as nat)) + (match extension {
        Some(extension) => encode_utf8("."@) + extension,
        None => Seq::empty(),
    })
}

/// Bytes, where there are some.
pub open spec fn optional_bytes(bytes: Option<&[u8]>) -> Option<Seq<u8>> {
    match bytes {
        Some(bytes) => Some(bytes@),
        None => None,
    }
}

/// Makes the name of a channel's own log file.
pub fn channel_file_name(stem: Option<&[u8]>, extension: Option<&[u8]>, channel: u32) -> (name: Vec<
    u8,
>)
    ensures
        name@ == channel_name(optional_bytes(stem), optional_bytes(extension), channel),
{
    let mut name: Vec<u8> = Vec::new();
    match stem {
        Some(stem) => push_bytes(&mut name, stem),
        None => push_str(&mut name, "log"),
    }
    push_str(&mut name, ".ch");
    push_decimal(&mut name, channel as u64);
    if let Some(extension) = extension {
        push_str(&mut name, ".");
        push_bytes(&mut name, extension);
    }
    assert(name@ =~= channel_name(optional_bytes(stem), optional_bytes(extension), channel));
    name
}

/// What the writes put into a file.
pub open spec fn content(writes: Seq<(Option<u32>, Seq<u8>)>, file: Option<u32>) -> Seq<u8>
    decreases writes.len(),
{
    if writes.len() == 0 {
        Seq::empty()
    } else {
        let before = content(writes.drop_last(), file);
        if writes.last().0 == file {
            before + writes.last().1
        } else {
            before
        }
    }
}

proof fn lemma_content_write(log: LogView, channel: u32, bytes: Seq<u8>, file: Option<u32>)
    ensures
        content(log.write(channel, bytes).writes, file) == content(log.writes, file) + (
        if log.file_for_channel(channel) == file {
            bytes
        } else {
            Seq::empty()
        }),
{
    assert(log.write(channel, bytes).writes.drop_last() =~= log.writes);
    assert(content(log.writes, file) + Seq::<u8>::empty() =~= content(log.writes, file));
}

/// A raw log holds the bytes as they came.
pub proof fn law_raw_log_is_exact(log: LogView, channel: u32, bytes: Seq<u8>)
    requires
        log.format == LogFormat::Raw,
    ensures
        content(log.write_raw(channel, bytes).writes, log.file_for_channel(channel)) == content(
            log.writes,
            log.file_for_channel(channel),
        ) + bytes,
{
    lemma_content_write(log, channel, bytes, log.file_for_channel(channel));
    assert(bytes.len() == 0 ==> content(log.writes, log.file_for_channel(channel)) + bytes
        =~= content(log.writes, log.file_for_channel(channel)));
}

/// A raw log takes nothing decoded, and a decoded log nothing raw.
pub proof fn law_formats_do_not_mix(
    log: LogView,
    channel: u32,
    bytes: Seq<u8>,
    include_channel: bool,
    wall: i64,
)
    ensures
        log.format == LogFormat::Decoded ==> log.write_raw(channel, bytes) == log,
        log.format == LogFormat::Raw ==> log.write_text(channel, bytes, include_channel, wall)
            == log,
        log.format == LogFormat::Raw ==> log.write_terminal(channel, bytes, include_channel, wall)
            == log,
{
}

/// Where each channel has its own file, the others' files are not written to.
pub proof fn law_files_are_separate(
    log: LogView,
    channel: u32,
    other: u32,
    bytes: Seq<u8>,
    include_channel: bool,
    wall: i64,
)
    requires
        log.per_channel,
        other != channel,
    ensures
        content(log.write_raw(channel, bytes).writes, Some(other)) == content(
            log.writes,
            Some(other),
        ),
        content(log.write_text(channel, bytes, include_channel, wall).writes, Some(other))
            == content(log.writes, Some(other)),
        content(log.write_terminal(channel, bytes, include_channel, wall).writes, Some(other))
            == content(log.writes, Some(other)),
{
    assert forall|state: LogView, written: Seq<u8>|
        state.per_channel && state.writes == log.writes implies content(
        (#[trigger] state.write(channel, written)).writes,
        Some(other),
    ) == content(log.writes, Some(other)) by {
        lemma_content_write(state, channel, written, Some(other));
    }
}

/// What is kept of a channel's text.
pub open spec fn pending_text(log: LogView, channel: u32) -> Seq<u8> {
    entry_or(log.text_pending, channel, (Seq::empty(), false)).0
}

/// A decoded log without stamps and tags holds the text byte for byte; what it
/// does not hold yet is kept.
pub proof fn law_text_log_loses_nothing(log: LogView, channel: u32, bytes: Seq<u8>, wall: i64)
    requires
        log.format == LogFormat::Decoded,
        !log.timestamps,
        one_each(log.text_pending),
    ensures
        ({
            let after = log.write_text(channel, bytes, false, wall);
            let file = log.file_for_channel(channel);
            content(after.writes, file) + pending_text(after, channel) == content(log.writes, file)
                + pending_text(log, channel) + bytes
        }),
{
    let file = log.file_for_channel(channel);
    let kept = pending_text(log, channel);
    if bytes.len() == 0 {
        assert(kept + bytes =~= kept);
        assert(content(log.writes, file) + kept + bytes =~= content(log.writes, file) + kept);
    } else {
        let text = cut(kept + bytes);
        let after = log.write_text(channel, bytes, false, wall);
        law_cut_loses_nothing(kept + bytes);
        law_kept_entry(
            log.text_pending,
            channel,
            (text.rest, false),
            channel,
            (Seq::empty(), false),
        );
        assert(log.line_prefix(channel, false, wall) =~= Seq::<u8>::empty());
        lemma_no_prefix(text.lines);
        let taken = LogView {
            text_pending: with_entry(log.text_pending, channel, (text.rest, false)),
            ..log
        };
        lemma_content_write(taken, channel, joined(text.lines), file);
        assert(content(after.writes, file) =~= content(log.writes, file) + joined(text.lines));
        assert(content(log.writes, file) + joined(text.lines) + text.rest =~= content(
            log.writes,
            file,
        ) + (joined(text.lines) + text.rest));
        assert(content(log.writes, file) + kept + bytes =~= content(log.writes, file) + (kept
            + bytes));
    }
}

proof fn lemma_no_prefix(lines: Seq<Seq<u8>>)
    ensures
        prefixed(lines, Seq::empty()) == joined(lines),
    decreases lines.len(),
{
    if lines.len() > 0 {
        lemma_no_prefix(lines.drop_last());
        assert(prefixed(lines.drop_last(), Seq::empty()) + Seq::<u8>::empty() =~= joined(
            lines.drop_last(),
        ));
    }
}

proof fn lemma_prefixed_concat(first: Seq<Seq<u8>>, second: Seq<Seq<u8>>, prefix: Seq<u8>)
    ensures
        prefixed(first + second, prefix) == prefixed(first, prefix) + prefixed(second, prefix),
    decreases second.len(),
{
    if second.len() == 0 {
        assert(first + second =~= first);
        assert(prefixed(first, prefix) + prefixed(second, prefix) =~= prefixed(first, prefix));
    } else {
        lemma_prefixed_concat(first, second.drop_last(), prefix);
        assert((first + second).drop_last() =~= first + second.drop_last());
        assert(prefixed(first + second, prefix) =~= prefixed(first, prefix) + prefixed(
            second,
            prefix,
        ));
    }
}

/// Text that comes in two parts is logged as in one: every file holds the same,
/// and the same is kept.
pub proof fn law_text_in_parts(
    log: LogView,
    channel: u32,
    first: Seq<u8>,
    second: Seq<u8>,
    include_channel: bool,
    wall: i64,
    file: Option<u32>,
)
    requires
        one_each(log.text_pending),
    ensures
        ({
            let parts = log.write_text(channel, first, include_channel, wall).write_text(
                channel,
                second,
                include_channel,
                wall,
            );
            let whole = log.write_text(channel, first + second, include_channel, wall);
            &&& content(parts.writes, file) == content(whole.writes, file)
            &&& parts.text_pending == whole.text_pending
            &&& parts.streams == whole.streams
        }),
{
    let half = log.write_text(channel, first, include_channel, wall);
    let parts = half.write_text(channel, second, include_channel, wall);
    let whole = log.write_text(channel, first + second, include_channel, wall);
    if log.format == LogFormat::Raw {
    } else if first.len() == 0 {
        assert(first + second =~= second);
    } else if second.len() == 0 {
        assert(first + second =~= first);
    } else {
        let missing = (Seq::<u8>::empty(), include_channel);
        let kept = entry_or(log.text_pending, channel, missing).0;
        let start = cut(kept + first);
        law_kept_entry(log.text_pending, channel, (start.rest, include_channel), channel, missing);
        let tail = cut(start.rest + second);
        law_cut_in_parts(kept + first, second);
        assert(kept + first + second =~= kept + (first + second));
        let all = cut(kept + (first + second));
        assert(all.lines == start.lines + tail.lines);
        lemma_place(log.text_pending, channel, log.text_pending.len() as int);
        lemma_place(half.text_pending, channel, half.text_pending.len() as int);
        assert(parts.text_pending =~= whole.text_pending) by {
            match place_of(log.text_pending, channel) {
                Some(index) => {
                    assert(half.text_pending[index].0 == channel);
                    assert(place_of(half.text_pending, channel) == Some(index)) by {
                        let place = place_of(half.text_pending, channel)->0;
                        if place != index {
                            assert(half.text_pending[place] == log.text_pending[place]);
                        }
                    }
                },
                None => {
                    assert(half.text_pending[log.text_pending.len() as int].0 == channel);
                },
            }
        }
        let prefix = log.line_prefix(channel, include_channel, wall);
        lemma_prefixed_concat(start.lines, tail.lines, prefix);
        let opened = LogView { text_pending: half.text_pending, ..log };
        let closed = LogView { text_pending: whole.text_pending, ..half };
        let direct = LogView { text_pending: whole.text_pending, ..log };
        lemma_content_write(opened, channel, prefixed(start.lines, prefix), file);
        lemma_content_write(closed, channel, prefixed(tail.lines, prefix), file);
        lemma_content_write(direct, channel, prefixed(all.lines, prefix), file);
        assert(content(parts.writes, file) =~= content(whole.writes, file));
    }
}

/// Writing out what is unfinished keeps it under way.
pub proof fn law_flush_keeps_lines_under_way(log: LogView, wall: i64, end: Seq<u8>)
    ensures
        log.tails(wall, end) == (LogView { writes: log.tails(wall, end).writes, ..log }),
{
    lemma_stream_tails(log, log.streams.len() as int, wall, end);
    let written = log.stream_tails(log.streams.len() as int, wall, end);
    lemma_text_tails(written, log.text_pending.len() as int, wall, end);
}

proof fn lemma_stream_tails(log: LogView, count: int, wall: i64, end: Seq<u8>)
    ensures
        log.stream_tails(count, wall, end) == (LogView {
            writes: log.stream_tails(count, wall, end).writes,
            ..log
        }),
    decreases count,
{
    if count > 0 {
        lemma_stream_tails(log, count - 1, wall, end);
    }
}

proof fn lemma_text_tails(log: LogView, count: int, wall: i64, end: Seq<u8>)
    ensures
        log.text_tails(count, wall, end) == (LogView {
            writes: log.text_tails(count, wall, end).writes,
            ..log
        }),
    decreases count,
{
    if count > 0 {
        lemma_text_tails(log, count - 1, wall, end);
    }
}

/// After a restart of the target, what was under way does not reach what comes: a
/// channel's next output is taken as if it were its first.
pub proof fn law_reset_starts_afresh(log: LogView, channel: u32, include_channel: bool, wall: i64)
    ensures
        ({
            let after = log.tails(wall, seq![10u8]).forgotten();
            let stream = entry_or(after.streams, channel, LogStream::fresh(include_channel));
            &&& stream == LogStream::fresh(stream.include_channel)
            &&& pending_text(after, channel) == Seq::<u8>::empty()
        }),
{
    let after = log.tails(wall, seq![10u8]).forgotten();
    lemma_place(after.streams, channel, after.streams.len() as int);
    lemma_place(after.text_pending, channel, after.text_pending.len() as int);
}

/// A line of narrow text that a terminal channel says is logged as it is shown,
/// behind the line's prefix and with one line feed, whether a line feed ends it or
/// a carriage return with a line feed. Nothing of it is left under way.
pub proof fn law_terminal_line_is_logged(
    log: LogView,
    channel: u32,
    bytes: Seq<u8>,
    text: Seq<char>,
    ending: Seq<TermAction>,
    include_channel: bool,
    wall: i64,
)
    requires
        log.format == LogFormat::Decoded,
        one_each(log.streams),
        bytes.len() > 0,
        is_narrow(text),
        text.len() <= MAX_TERMINAL_COLUMNS,
        ends_a_line(ending),
        ({
            let stream = entry_or(log.streams, channel, LogStream::fresh(include_channel));
            &&& stream.terminal == blank_line()
            &&& terminal_actions(stream.feed, bytes) == prints(text) + ending
        }),
    ensures
        ({
            let stream = entry_or(log.streams, channel, LogStream::fresh(include_channel));
            let after = log.write_terminal(channel, bytes, include_channel, wall);
            let file = log.file_for_channel(channel);
            &&& content(after.writes, file) == content(log.writes, file) + log.line_prefix(
                channel,
                stream.include_channel,
                wall,
            ) + encode_utf8(text).push(10u8)
            &&& entry_or(after.streams, channel, stream).terminal == blank_line()
        }),
{
    let fresh = LogStream::fresh(include_channel);
    let stream = entry_or(log.streams, channel, fresh);
    let file = log.file_for_channel(channel);
    law_text_line_is_kept(Seq::empty(), text, ending);
    let line = encode_utf8(text).push(10u8);
    let lines = stream.decoded(bytes).complete;
    assert(lines =~= seq![line]);
    let prefix = log.line_prefix(channel, stream.include_channel, wall);
    assert(lines.drop_last() =~= Seq::<Seq<u8>>::empty());
    assert(prefixed(lines, prefix) =~= prefix + line) by {
        assert(prefixed(lines.drop_last(), prefix) =~= Seq::<u8>::empty());
    }
    let taken = LogView {
        streams: with_entry(log.streams, channel, stream.after(bytes)),
        ..log
    };
    lemma_content_write(taken, channel, prefixed(lines, prefix), file);
    law_kept_entry(log.streams, channel, stream.after(bytes), channel, stream);
    assert(stream.after(bytes).terminal =~= blank_line());
    assert(content(log.writes, file) + (prefix + line) =~= content(log.writes, file) + prefix
        + line);
}

/// A line of printable ASCII text that a terminal channel says after plain output
/// is logged byte for byte, behind the line's prefix and with one line feed.
pub proof fn law_printable_terminal_line_is_logged(
    log: LogView,
    channel: u32,
    text: Seq<u8>,
    ending: Seq<u8>,
    include_channel: bool,
    wall: i64,
)
    requires
        log.format == LogFormat::Decoded,
        one_each(log.streams),
        is_printable(text),
        text.len() <= MAX_TERMINAL_COLUMNS,
        ending == seq![10u8] || ending == seq![13u8, 10u8],
        ({
            let stream = entry_or(log.streams, channel, LogStream::fresh(include_channel));
            &&& stream.terminal == blank_line()
            &&& forall|i: int| 0 <= i < stream.feed.len() ==> is_plain(#[trigger] stream.feed[i])
            &&& chunk_is_known(stream.feed, text + ending)
        }),
    ensures
        ({
            let stream = entry_or(log.streams, channel, LogStream::fresh(include_channel));
            let after = log.write_terminal(channel, text + ending, include_channel, wall);
            let file = log.file_for_channel(channel);
            &&& content(after.writes, file) == content(log.writes, file) + log.line_prefix(
                channel,
                stream.include_channel,
                wall,
            ) + text.push(10u8)
            &&& entry_or(after.streams, channel, stream).terminal == blank_line()
        }),
{
    let stream = entry_or(log.streams, channel, LogStream::fresh(include_channel));
    law_printable_line_is_printed(stream.feed, text, ending);
    law_terminal_line_is_logged(
        log,
        channel,
        text + ending,
        ascii_text(text),
        plain_actions(ending),
        include_channel,
        wall,
    );
}

/// Terminal output that comes in two chunks is logged as in one, wherever the
/// terminal's requests may be cut: every file holds the same, and the same line is
/// under way.
pub proof fn law_terminal_log_in_parts(
    log: LogView,
    channel: u32,
    first: Seq<u8>,
    second: Seq<u8>,
    include_channel: bool,
    wall: i64,
    file: Option<u32>,
)
    requires
        one_each(log.streams),
        ({
            let stream = entry_or(log.streams, channel, LogStream::fresh(include_channel));
            &&& stream.terminal.complete.len() == 0
            &&& may_be_cut(stream.feed, first, second)
        }),
    ensures
        ({
            let fresh = LogStream::fresh(include_channel);
            let parts = log.write_terminal(channel, first, include_channel, wall).write_terminal(
                channel,
                second,
                include_channel,
                wall,
            );
            let whole = log.write_terminal(channel, first + second, include_channel, wall);
            &&& content(parts.writes, file) == content(whole.writes, file)
            &&& parts.text_pending == whole.text_pending
            &&& entry_or(parts.streams, channel, fresh).terminal == entry_or(
                whole.streams,
                channel,
                fresh,
            ).terminal
        }),
{
    let fresh = LogStream::fresh(include_channel);
    let half = log.write_terminal(channel, first, include_channel, wall);
    let parts = half.write_terminal(channel, second, include_channel, wall);
    let whole = log.write_terminal(channel, first + second, include_channel, wall);
    if first.len() == 0 {
        assert(first + second =~= second);
    } else if second.len() == 0 {
        assert(first + second =~= first);
    } else if log.format == LogFormat::Decoded {
        let stream = entry_or(log.streams, channel, fresh);
        let middle = stream.after(first);
        let requests = terminal_actions(stream.feed, first);
        let more = terminal_actions(stream.feed.push(first), second);
        law_kept_entry(log.streams, channel, middle, channel, fresh);
        law_kept_entry(half.streams, channel, middle.after(second), channel, fresh);
        law_kept_entry(log.streams, channel, stream.after(first + second), channel, fresh);
        law_requests_in_parts(stream.terminal, requests, more);
        let lines = stream.decoded(first).complete;
        let tail = middle.decoded(second).complete;
        lemma_earlier_lines(middle.terminal, lines, more);
        assert(lines + Seq::<Seq<u8>>::empty() =~= lines);
        assert(stream.decoded(first + second).complete == lines + tail);
        let prefix = log.line_prefix(channel, stream.include_channel, wall);
        lemma_prefixed_concat(lines, tail, prefix);
        let opened = LogView { streams: half.streams, ..log };
        let closed = LogView { streams: parts.streams, ..half };
        let direct = LogView { streams: whole.streams, ..log };
        lemma_content_write(opened, channel, prefixed(lines, prefix), file);
        lemma_content_write(closed, channel, prefixed(tail, prefix), file);
        lemma_content_write(direct, channel, prefixed(lines + tail, prefix), file);
        assert(content(parts.writes, file) =~= content(whole.writes, file));
    }
}

/// ASCII terminal output, with its colours and cursor movements, that comes in two
/// chunks is logged as in one, wherever it is cut and whatever came before.
pub proof fn law_ascii_terminal_log_in_parts(
    log: LogView,
    channel: u32,
    first: Seq<u8>,
    second: Seq<u8>,
    include_channel: bool,
    wall: i64,
    file: Option<u32>,
)
    requires
        one_each(log.streams),
        is_seven_bit(first),
        is_seven_bit(second),
        ({
            let stream = entry_or(log.streams, channel, LogStream::fresh(include_channel));
            &&& stream.terminal.complete.len() == 0
            &&& chunk_is_known(stream.feed, first + second)
        }),
    ensures
        ({
            let fresh = LogStream::fresh(include_channel);
            let parts = log.write_terminal(channel, first, include_channel, wall).write_terminal(
                channel,
                second,
                include_channel,
                wall,
            );
            let whole = log.write_terminal(channel, first + second, include_channel, wall);
            &&& content(parts.writes, file) == content(whole.writes, file)
            &&& parts.text_pending == whole.text_pending
            &&& entry_or(parts.streams, channel, fresh).terminal == entry_or(
                whole.streams,
                channel,
                fresh,
            ).terminal
        }),
{
    let stream = entry_or(log.streams, channel, LogStream::fresh(include_channel));
    assert(is_seven_bit(first + second));
    assert(may_be_cut(stream.feed, first, second));
    law_terminal_log_in_parts(log, channel, first, second, include_channel, wall, file);
}

/// What stands before a line of the log: the stamp of the moment where stamps are
/// on, then the channel's tag where it is asked for, and nothing else.
pub proof fn law_log_lines_have_stamp_and_tag(
    log: LogView,
    channel: u32,
    include_channel: bool,
    wall: i64,
)
    ensures
        log.line_prefix(channel, include_channel, wall) == (if log.timestamps {
            stamp(wall)
        } else {
            Seq::empty()
        }) + (if include_channel {
            encode_utf8("[ch"@ + decimal(channel as nat) + "] "@)
        } else {
            Seq::empty()
        }),
{
    law_tags_hold_the_number(channel);
}

/// A channel is logged to a file of its own where each has one, and else to the one
/// that all share: a raw log has the bytes there.
pub proof fn law_channels_have_their_files(log: LogView, channel: u32, bytes: Seq<u8>)
    requires
        log.format == LogFormat::Raw,
    ensures
        ({
            let file = if log.per_channel {
                Some(channel)
            } else {
                None
            };
            &&& log.file_for_channel(channel) == file
            &&& content(log.write_raw(channel, bytes).writes, file) == content(log.writes, file)
                + bytes
        }),
{
    law_raw_log_is_exact(log, channel, bytes);
}

/// A line of text that comes whole is logged with its stamp and tag before it, to
/// the channel's file, and nothing is kept of it.
pub proof fn law_text_lines_are_logged(
    log: LogView,
    channel: u32,
    line: Seq<u8>,
    include_channel: bool,
    wall: i64,
)
    requires
        log.format == LogFormat::Decoded,
        one_each(log.text_pending),
        pending_text(log, channel).len() == 0,
        in_one_line(line),
    ensures
        ({
            let file = if log.per_channel {
                Some(channel)
            } else {
                None
            };
            let after = log.write_text(channel, line.push(10u8), include_channel, wall);
            &&& content(after.writes, file) == content(log.writes, file) + (if log.timestamps {
                stamp(wall)
            } else {
                Seq::empty()
            }) + (if include_channel {
                encode_utf8("[ch"@ + decimal(channel as nat) + "] "@)
            } else {
                Seq::empty()
            }) + line.push(10u8)
            &&& pending_text(after, channel).len() == 0
            &&& after.streams == log.streams
        }),
{
    let file = log.file_for_channel(channel);
    let whole = line.push(10u8);
    let missing = (Seq::<u8>::empty(), include_channel);
    let nothing = Seq::<u8>::empty();
    let kept = entry_or(log.text_pending, channel, missing).0;
    assert(kept =~= nothing);
    assert(kept + whole =~= whole);
    lemma_cut_one_line(nothing, line);
    assert(nothing + line =~= line);
    assert(whole.drop_last() =~= line);
    assert(cut(line).lines =~= Seq::<Seq<u8>>::empty());
    assert(cut(line).rest =~= line);
    let text = cut(whole);
    assert(text.lines =~= seq![whole]);
    law_log_lines_have_stamp_and_tag(log, channel, include_channel, wall);
    let prefix = log.line_prefix(channel, include_channel, wall);
    assert(text.lines.drop_last() =~= Seq::<Seq<u8>>::empty());
    assert(prefixed(text.lines, prefix) =~= prefix + whole) by {
        assert(prefixed(text.lines.drop_last(), prefix) =~= nothing);
    }
    let taken = LogView {
        text_pending: with_entry(log.text_pending, channel, (text.rest, include_channel)),
        ..log
    };
    lemma_content_write(taken, channel, prefixed(text.lines, prefix), file);
    law_kept_entry(
        log.text_pending,
        channel,
        (text.rest, include_channel),
        channel,
        (nothing, false),
    );
    let stamped = if log.timestamps {
        stamp(wall)
    } else {
        Seq::empty()
    };
    let tagged = if include_channel {
        encode_utf8("[ch"@ + decimal(channel as nat) + "] "@)
    } else {
        Seq::empty()
    };
    assert(content(log.writes, file) + (prefix + whole) =~= content(log.writes, file) + stamped
        + tagged + whole);
}

/// Text without a line feed is kept, with whether it is to be tagged, and not logged
/// yet.
pub proof fn law_unfinished_text_is_kept(
    log: LogView,
    channel: u32,
    text: Seq<u8>,
    include_channel: bool,
    wall: i64,
)
    requires
        log.format == LogFormat::Decoded,
        one_each(log.text_pending),
        in_one_line(pending_text(log, channel)),
        in_one_line(text),
    ensures
        log.write_text(channel, text, include_channel, wall).writes == log.writes,
        pending_text(log.write_text(channel, text, include_channel, wall), channel)
            == pending_text(log, channel) + text,
        text.len() > 0 ==> entry_or(
            log.write_text(channel, text, include_channel, wall).text_pending,
            channel,
            (Seq::empty(), false),
        ) == (pending_text(log, channel) + text, include_channel),
{
    let nothing = Seq::<u8>::empty();
    let kept = entry_or(log.text_pending, channel, (nothing, include_channel)).0;
    assert(kept =~= pending_text(log, channel));
    lemma_cut_one_line(nothing, kept + text);
    assert(nothing + (kept + text) =~= kept + text);
    law_kept_entry(
        log.text_pending,
        channel,
        (cut(kept + text).rest, include_channel),
        channel,
        (nothing, false),
    );
    assert(kept + nothing =~= kept);
    assert(text.len() == 0 ==> kept + text =~= kept);
}

/// What a file gets of the unfinished terminal lines, one entry for each channel.
pub open spec fn stream_endings(
    log: LogView,
    file: Option<u32>,
    wall: i64,
    end: Seq<u8>,
) -> Seq<Seq<u8>> {
    log.streams.map_values(
        |entry: (u32, LogStream)|
            {
                let own = if log.per_channel {
                    Some(entry.0)
                } else {
                    None
                };
                let line = entry.1.terminal.visible();
                if own == file && line.len() > 0 {
                    log.line_prefix(entry.0, entry.1.include_channel, wall) + line + end
                } else {
                    Seq::empty()
                }
            },
    )
}

/// What a file gets of the unfinished texts, one entry for each channel.
pub open spec fn text_endings(
    log: LogView,
    file: Option<u32>,
    wall: i64,
    end: Seq<u8>,
) -> Seq<Seq<u8>> {
    log.text_pending.map_values(
        |entry: (u32, (Seq<u8>, bool))|
            {
                let own = if log.per_channel {
                    Some(entry.0)
                } else {
                    None
                };
                if own == file && entry.1.0.len() > 0 {
                    log.line_prefix(entry.0, entry.1.1, wall) + entry.1.0 + end
                } else {
                    Seq::empty()
                }
            },
    )
}

/// Writing out what is unfinished adds to each file, behind what it holds, the
/// unfinished terminal lines of its channels and then their unfinished texts, each
/// with its stamp and tag before it and the given end behind it. Channels with
/// nothing unfinished add nothing.
pub proof fn law_unfinished_lines_are_written(
    log: LogView,
    file: Option<u32>,
    wall: i64,
    end: Seq<u8>,
)
    ensures
        content(log.tails(wall, end).writes, file) == content(log.writes, file) + joined(
            stream_endings(log, file, wall, end),
        ) + joined(text_endings(log, file, wall, end)),
{
    let streams = stream_endings(log, file, wall, end);
    let texts = text_endings(log, file, wall, end);
    lemma_stream_endings(log, file, wall, end, log.streams.len() as int);
    assert(streams.take(log.streams.len() as int) =~= streams);
    let written = log.stream_tails(log.streams.len() as int, wall, end);
    lemma_stream_tails(log, log.streams.len() as int, wall, end);
    lemma_text_endings(written, file, wall, end, log.text_pending.len() as int);
    assert(text_endings(written, file, wall, end) =~= texts) by {
        assert forall|i: int| 0 <= i < texts.len() implies #[trigger] text_endings(
            written,
            file,
            wall,
            end,
        )[i] == texts[i] by {
            let entry = log.text_pending[i];
            assert(written.line_prefix(entry.0, entry.1.1, wall) == log.line_prefix(
                entry.0,
                entry.1.1,
                wall,
            ));
        }
    }
    assert(texts.take(log.text_pending.len() as int) =~= texts);
}

proof fn lemma_stream_endings(
    log: LogView,
    file: Option<u32>,
    wall: i64,
    end: Seq<u8>,
    count: int,
)
    requires
        0 <= count <= log.streams.len(),
    ensures
        content(log.stream_tails(count, wall, end).writes, file) == content(log.writes, file)
            + joined(stream_endings(log, file, wall, end).take(count)),
    decreases count,
{
    let all = stream_endings(log, file, wall, end);
    let here = content(log.writes, file);
    if count == 0 {
        assert(all.take(0) =~= Seq::<Seq<u8>>::empty());
        assert(here + Seq::<u8>::empty() =~= here);
    } else {
        lemma_stream_endings(log, file, wall, end, count - 1);
        lemma_stream_tails(log, count - 1, wall, end);
        assert(all.take(count).drop_last() =~= all.take(count - 1));
        assert(all.take(count).last() == all[count - 1]);
        let before = log.stream_tails(count - 1, wall, end);
        let (channel, stream) = log.streams[count - 1];
        let line = stream.terminal.visible();
        let bytes = log.line_prefix(channel, stream.include_channel, wall) + line + end;
        lemma_content_write(before, channel, bytes, file);
        assert(content(log.stream_tails(count, wall, end).writes, file) =~= here + joined(
            all.take(count),
        ));
    }
}

proof fn lemma_text_endings(
    log: LogView,
    file: Option<u32>,
    wall: i64,
    end: Seq<u8>,
    count: int,
)
    requires
        0 <= count <= log.text_pending.len(),
    ensures
        content(log.text_tails(count, wall, end).writes, file) == content(log.writes, file)
            + joined(text_endings(log, file, wall, end).take(count)),
    decreases count,
{
    let all = text_endings(log, file, wall, end);
    let here = content(log.writes, file);
    if count == 0 {
        assert(all.take(0) =~= Seq::<Seq<u8>>::empty());
        assert(here + Seq::<u8>::empty() =~= here);
    } else {
        lemma_text_endings(log, file, wall, end, count - 1);
        lemma_text_tails(log, count - 1, wall, end);
        assert(all.take(count).drop_last() =~= all.take(count - 1));
        assert(all.take(count).last() == all[count - 1]);
        let before = log.text_tails(count - 1, wall, end);
        let (channel, (line, include_channel)) = log.text_pending[count - 1];
        let bytes = log.line_prefix(channel, include_channel, wall) + line + end;
        lemma_content_write(before, channel, bytes, file);
        assert(content(log.text_tails(count, wall, end).writes, file) =~= here + joined(
            all.take(count),
        ));
    }
}

/// Forgetting what is under way keeps the channels, their tags, the settings and
/// what is due to the files.
pub proof fn law_forgetting_keeps_the_channels(log: LogView, i: int)
    ensures
        log.forgotten().writes == log.writes,
        log.forgotten().format == log.format,
        log.forgotten().per_channel == log.per_channel,
        log.forgotten().timestamps == log.timestamps,
        log.forgotten().path == log.path,
        log.forgotten().streams.len() == log.streams.len(),
        log.forgotten().text_pending.len() == log.text_pending.len(),
        0 <= i < log.streams.len() ==> log.forgotten().streams[i].0 == log.streams[i].0
            && log.forgotten().streams[i].1.include_channel == log.streams[i].1.include_channel
            && log.forgotten().streams[i].1.terminal == blank_line()
            && log.forgotten().streams[i].1.feed.len() == 0,
        0 <= i < log.text_pending.len() ==> log.forgotten().text_pending[i].0
            == log.text_pending[i].0 && log.forgotten().text_pending[i].1.0.len() == 0,
{
}

/// A channel's file name is the log's with the channel's number between the stem and
/// the extension; without a stem it begins with `log`.
pub proof fn law_channel_names(stem: Seq<u8>, extension: Seq<u8>, channel: u32)
    ensures
        channel_name(Some(stem), Some(extension), channel) == stem + encode_utf8(
            ".ch"@ + decimal(channel as nat) + "."@,
        ) + extension,
        channel_name(Some(stem), None, channel) == stem + encode_utf8(
            ".ch"@ + decimal(channel as nat),
        ),
        channel_name(None, None, channel) == encode_utf8("log.ch"@ + decimal(channel as nat)),
{
    let number = decimal(channel as nat);
    lemma_encode_concat(".ch"@ + number, "."@);
    lemma_encode_concat(".ch"@, number);
    lemma_encode_concat("log"@, ".ch"@);
    lemma_encode_concat("log"@ + ".ch"@, number);
    reveal_strlit("log.ch");
    reveal_strlit("log");
    reveal_strlit(".ch");
    assert("log"@ + ".ch"@ =~= "log.ch"@);
    assert(channel_name(Some(stem), Some(extension), channel) =~= stem + encode_utf8(
        ".ch"@ + number + "."@,
    ) + extension);
    assert(channel_name(Some(stem), None, channel) =~= stem + encode_utf8(".ch"@ + number));
    assert(channel_name(None, None, channel) =~= encode_utf8("log.ch"@ + number));
}

} // verus!
