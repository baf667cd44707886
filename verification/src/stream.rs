//! The output of one channel during a session: the bytes of each line as they
//! came, beside the line as a terminal shows it.
use crate::lines::{in_one_line, line_feeds};
use crate::terminal::{
    ascii_text, blank_line, char_columns, chunk_is_known, executed_line_feeds, is_narrow, is_plain,
    is_printable, law_line_feeds_finish_lines, law_requests_in_parts, law_text_overwrites,
    lemma_ascii_text_bytes, lemma_earlier_lines, lemma_lines_stay_visible, may_be_cut,
    plain_action, plain_actions, prints, prints_visibly, terminal_actions, text_cells,
    DecodedStream, TermAction, TermView,
};
use crate::text::lines_view;
use vstd::prelude::*;

verus! {

/// The most bytes of a line that are kept as they came.
pub const MAX_SESSION_RAW_LINE_BYTES: usize = 4096;

/// The bytes of the current line, and what was noticed about them.
pub struct RawView {
    /// The bytes of the line.
    pub line: Seq<u8>,
    /// The last byte was a carriage return.
    pub pending_cr: bool,
    /// The bytes move the cursor, so that they do not show what they spell.
    pub rewrite: bool,
    /// The escape sequence that is under way.
    pub escape: Seq<u8>,
    /// The finished lines, each with its rewrite mark.
    pub complete: Seq<(Seq<u8>, bool)>,
}

impl RawView {
    /// An empty line behind finished ones.
    pub open spec fn fresh(complete: Seq<(Seq<u8>, bool)>) -> RawView {
        RawView {
            line: Seq::empty(),
            pending_cr: false,
            rewrite: false,
            escape: Seq::empty(),
            complete,
        }
    }

    /// A byte joins the line; one that finds no room marks the line instead.
    pub open spec fn push(self, byte: u8) -> RawView {
        if self.line.len() < MAX_SESSION_RAW_LINE_BYTES {
            RawView { line: self.line.push(byte), ..self }
        } else {
            RawView { rewrite: true, ..self }
        }
    }

    /// The line ends.
    pub open spec fn finish(self) -> RawView {
        RawView::fresh(self.complete.push((self.line, self.rewrite)))
    }

    /// A byte may belong to an escape sequence. One that does not set colours
    /// marks the line.
    pub open spec fn escaped(self, byte: u8) -> RawView {
        let escape = self.escape.push(byte);
        if self.escape.len() == 0 {
            self
        } else if escape.len() == 2 && byte != 0x5b {
            RawView { rewrite: true, escape: Seq::empty(), ..self }
        } else if escape.len() >= 3 && 0x40 <= byte <= 0x7e {
            RawView {
                rewrite: self.rewrite || !(escape[1] == 0x5b && byte == 0x6d),
                escape: Seq::empty(),
                ..self
            }
        } else {
            RawView { escape, ..self }
        }
    }

    /// The state after one byte.
    pub open spec fn step(self, byte: u8) -> RawView {
        if self.pending_cr && byte == 10 {
            self.finish()
        } else {
            let state = if self.pending_cr {
                RawView { pending_cr: false, rewrite: true, ..self }
            } else {
                self
            };
            if byte == 13 {
                RawView { pending_cr: true, ..state }
            } else if byte == 10 {
                state.finish()
            } else if byte == 27 {
                RawView { escape: seq![27u8], ..state }.push(27u8)
            } else {
                state.push(byte).escaped(byte)
            }
        }
    }

    /// The state after a sequence of bytes.
    pub open spec fn steps(self, bytes: Seq<u8>) -> RawView
        decreases bytes.len(),
    {
        if bytes.len() == 0 {
            self
        } else {
            self.steps(bytes.drop_last()).step(bytes.last())
        }
    }
}

/// A line without the line feed that ends it.
pub open spec fn without_line_feed(line: Seq<u8>) -> Seq<u8> {
    if line.len() > 0 && line.last() == 10 {
        line.drop_last()
    } else {
        line
    }
}

/// The state of a channel's output.
pub struct StreamView {
    pub terminal: TermView,
    pub feed: Seq<Seq<u8>>,
    pub raw: RawView,
}

impl StreamView {
    /// The terminal after a chunk.
    pub open spec fn decoded(self, bytes: Seq<u8>) -> TermView {
        self.terminal.apply_all(terminal_actions(self.feed, bytes))
    }

    /// The state after a chunk, when its finished lines have been handed out.
    pub open spec fn after(self, bytes: Seq<u8>) -> StreamView {
        StreamView {
            terminal: TermView { complete: Seq::empty(), ..self.decoded(bytes) },
            feed: self.feed.push(bytes),
            raw: RawView { complete: Seq::empty(), ..self.raw.steps(bytes) },
        }
    }

    /// The lines that a chunk finishes: the bytes as they came where they show
    /// what they spell, else the line as the terminal shows it.
    pub open spec fn finished(self, bytes: Seq<u8>) -> Seq<Seq<u8>> {
        let shown = self.decoded(bytes).complete;
        let raw = self.raw.steps(bytes).complete;
        Seq::new(
            shown.len(),
            |i: int|
                if i < raw.len() && !raw[i].1 {
                    raw[i].0
                } else {
                    without_line_feed(shown[i])
                },
        )
    }

    /// The line that is not finished yet.
    pub open spec fn partial(self) -> Seq<u8> {
        if self.raw.rewrite {
            self.terminal.visible()
        } else {
            self.raw.line
        }
    }
}

/// Finished raw lines as sequences.
pub open spec fn raw_lines_view(lines: Seq<(Vec<u8>, bool)>) -> Seq<(Seq<u8>, bool)> {
    lines.map_values(|line: (Vec<u8>, bool)| (line.0@, line.1))
}

/// The output of one channel during a session.
pub struct SessionStream {
    pub terminal: DecodedStream,
    pub raw_line: Vec<u8>,
    pub raw_pending_cr: bool,
    pub raw_rewrite: bool,
    pub raw_escape: Vec<u8>,
    pub raw_complete: Vec<(Vec<u8>, bool)>,
}

impl View for SessionStream {
    type V = StreamView;

    open spec fn view(&self) -> StreamView {
        StreamView { terminal: self.terminal@, feed: self.terminal.feed(), raw: self.raw() }
    }
}

impl SessionStream {
    /// The bytes of the line and what was noticed about them.
    pub open spec fn raw(self) -> RawView {
        RawView {
            line: self.raw_line@,
            pending_cr: self.raw_pending_cr,
            rewrite: self.raw_rewrite,
            escape: self.raw_escape@,
            complete: raw_lines_view(self.raw_complete@),
        }
    }

    /// The terminal line is within its limits, and lines are kept apart.
    pub open spec fn wf(self) -> bool {
        self.terminal.wf() && self@.keeps_lines_apart()
    }

    /// A channel that has said nothing.
    pub fn new() -> (stream: Self)
        ensures
            stream.wf(),
            stream@ == fresh_stream(),
    {
        let stream = SessionStream {
            terminal: DecodedStream::new(),
            raw_line: Vec::new(),
            raw_pending_cr: false,
            raw_rewrite: false,
            raw_escape: Vec::new(),
            raw_complete: Vec::new(),
        };
        assert(raw_lines_view(stream.raw_complete@) =~= Seq::<(Seq<u8>, bool)>::empty());
        stream
    }

    /// Takes in a chunk of output, hands out the lines that it finishes and the
    /// line that it leaves unfinished.
    pub fn consume(&mut self, bytes: &[u8]) -> (result: (Vec<Vec<u8>>, Vec<u8>))
        requires
            old(self).wf(),
        ensures
            final(self).wf(),
            final(self)@ == old(self)@.after(bytes@),
            lines_view(result.0@) == old(self)@.finished(bytes@),
            result.1@ == old(self)@.after(bytes@).partial(),
            chunk_is_known(old(self)@.feed, bytes@),
    {
        let ghost before = self@;
        let shown = self.terminal.consume(bytes);
        assert(self.raw() == before.raw);
        self.consume_raw(bytes);
        let mut raw: Vec<(Vec<u8>, bool)> = Vec::new();
        raw.append(&mut self.raw_complete);
        assert(raw@ =~= Seq::<(Vec<u8>, bool)>::empty() + raw@);
        assert(raw_lines_view(self.raw_complete@) =~= Seq::<(Seq<u8>, bool)>::empty());
        let ghost wanted = before.finished(bytes@);
        let mut complete: Vec<Vec<u8>> = Vec::new();
        let mut index: usize = 0;
        while index < shown.len()
            invariant
                index <= shown@.len(),
                complete@.len() == index,
                lines_view(shown@) == before.decoded(bytes@).complete,
                raw_lines_view(raw@) == before.raw.steps(bytes@).complete,
                wanted == before.finished(bytes@),
                forall|i: int| 0 <= i < index ==> (#[trigger] complete@[i])@ == wanted[i],
            decreases shown@.len() - index,
        {
            let line = if index < raw.len() && !raw[index].1 {
                assert(raw_lines_view(raw@)[index as int] == (raw@[index as int].0@, false));
                raw[index].0.clone()
            } else {
                assert(index < raw@.len() ==> raw_lines_view(raw@)[index as int].1);
                assert(lines_view(shown@)[index as int] == shown@[index as int]@);
                trim_line_feed(&shown[index])
            };
            assert(line@ =~= wanted[index as int]);
            complete.push(line);
            index += 1;
        }
        assert(lines_view(complete@) =~= wanted);
        proof {
            law_lines_are_kept_apart(before, bytes@);
        }
        let partial = self.visible_line();
        (complete, partial)
    }

    /// The line that is not finished yet.
    pub fn visible_line(&self) -> (line: Vec<u8>)
        ensures
            line@ == self@.partial(),
    {
        if self.raw_rewrite {
            self.terminal.visible_line()
        } else {
            let line = self.raw_line.clone();
            assert(line@ =~= self.raw_line@);
            line
        }
    }

    fn consume_raw(&mut self, bytes: &[u8])
        ensures
            final(self).terminal == old(self).terminal,
            final(self).raw() == old(self).raw().steps(bytes@),
    {
        let ghost before = self.raw();
        let mut index: usize = 0;
        assert(bytes@.take(0) =~= Seq::<u8>::empty());
        while index < bytes.len()
            invariant
                index <= bytes@.len(),
                self.terminal == old(self).terminal,
                self.raw() == before.steps(bytes@.take(index as int)),
            decreases bytes@.len() - index,
        {
            assert(bytes@.take(index + 1).drop_last() =~= bytes@.take(index as int));
            self.consume_raw_byte(bytes[index]);
            index += 1;
        }
        assert(bytes@.take(bytes@.len() as int) =~= bytes@);
    }

    fn consume_raw_byte(&mut self, byte: u8)
        ensures
            final(self).terminal == old(self).terminal,
            final(self).raw() == old(self).raw().step(byte),
    {
        if self.raw_pending_cr {
            self.raw_pending_cr = false;
            if byte == 10 {
                self.finish_raw_line();
                return ;
            }
            self.raw_rewrite = true;
        }
        if byte == 13 {
            self.raw_pending_cr = true;
        } else if byte == 10 {
            self.finish_raw_line();
        } else if byte == 27 {
            self.raw_escape.clear();
            self.raw_escape.push(byte);
            assert(self.raw_escape@ =~= seq![27u8]);
            self.push_raw(byte);
        } else {
            self.push_raw(byte);
            self.update_escape(byte);
        }
    }

    fn update_escape(&mut self, byte: u8)
        ensures
            final(self).terminal == old(self).terminal,
            final(self).raw() == old(self).raw().escaped(byte),
    {
        if self.raw_escape.is_empty() {
            return ;
        }
        self.raw_escape.push(byte);
        if self.raw_escape.len() == 2 && byte != 0x5b {
            self.raw_rewrite = true;
            self.raw_escape.clear();
        } else if self.raw_escape.len() >= 3 && 0x40 <= byte && byte <= 0x7e {
            if !(self.raw_escape[1] == 0x5b && byte == 0x6d) {
                self.raw_rewrite = true;
            }
            self.raw_escape.clear();
        }
    }

    fn finish_raw_line(&mut self)
        ensures
            final(self).terminal == old(self).terminal,
            final(self).raw() == old(self).raw().finish(),
    {
        let ghost before = self.raw();
        let mut line: Vec<u8> = Vec::new();
        line.append(&mut self.raw_line);
        assert(line@ =~= before.line);
        self.raw_complete.push((line, self.raw_rewrite));
        assert(raw_lines_view(self.raw_complete@) =~= before.complete.push(
            (before.line, before.rewrite),
        ));
        self.raw_pending_cr = false;
        self.raw_rewrite = false;
        self.raw_escape.clear();
    }

    fn push_raw(&mut self, byte: u8)
        ensures
            final(self).terminal == old(self).terminal,
            final(self).raw() == old(self).raw().push(byte),
    {
        if self.raw_line.len() < MAX_SESSION_RAW_LINE_BYTES {
            self.raw_line.push(byte);
        } else {
            self.raw_rewrite = true;
        }
    }
}

/// A channel that has said nothing.
pub open spec fn fresh_stream() -> StreamView {
    StreamView {
        terminal: blank_line(),
        feed: Seq::empty(),
        raw: RawView::fresh(Seq::empty()),
    }
}

/// Copies a line without the line feed that ends it.
fn trim_line_feed(line: &Vec<u8>) -> (trimmed: Vec<u8>)
    ensures
        trimmed@ == without_line_feed(line@),
{
    let mut trimmed = line.clone();
    assert(trimmed@ =~= line@);
    if trimmed.len() > 0 && trimmed[trimmed.len() - 1] == 10 {
        trimmed.pop();
    }
    trimmed
}

/// Bytes that come in two chunks are noted as they are in one.
pub proof fn law_raw_bytes_in_parts(state: RawView, first: Seq<u8>, second: Seq<u8>)
    ensures
        state.steps(first + second) == state.steps(first).steps(second),
    decreases second.len(),
{
    if second.len() == 0 {
        assert(first + second =~= first);
    } else {
        law_raw_bytes_in_parts(state, first, second.drop_last());
        assert((first + second).drop_last() =~= first + second.drop_last());
    }
}

/// Bytes that neither end a line nor move the cursor.
pub open spec fn is_text(bytes: Seq<u8>) -> bool {
    forall|i: int|
        0 <= i < bytes.len() ==> #[trigger] bytes[i] != 10 && bytes[i] != 13 && bytes[i] != 27
}

/// Text that fits is kept byte for byte and leaves no mark.
pub proof fn law_raw_text_is_kept(state: RawView, bytes: Seq<u8>)
    requires
        is_text(bytes),
        !state.pending_cr,
        state.escape.len() == 0,
        state.line.len() + bytes.len() <= MAX_SESSION_RAW_LINE_BYTES,
    ensures
        state.steps(bytes) == (RawView { line: state.line + bytes, ..state }),
    decreases bytes.len(),
{
    if bytes.len() == 0 {
        assert(state.line + bytes =~= state.line);
    } else {
        law_raw_text_is_kept(state, bytes.drop_last());
        assert((state.line + bytes.drop_last()).push(bytes.last()) =~= state.line + bytes);
    }
}

/// A line of text that fits is finished unmarked by a line feed, and by a carriage
/// return with a line feed: those two make one line end.
pub proof fn law_raw_line_ends(complete: Seq<(Seq<u8>, bool)>, bytes: Seq<u8>)
    requires
        is_text(bytes),
        bytes.len() <= MAX_SESSION_RAW_LINE_BYTES,
    ensures
        RawView::fresh(complete).steps(bytes + seq![10u8]) == RawView::fresh(
            complete.push((bytes, false)),
        ),
        RawView::fresh(complete).steps(bytes + seq![13u8, 10u8]) == RawView::fresh(
            complete.push((bytes, false)),
        ),
{
    let start = RawView::fresh(complete);
    law_raw_text_is_kept(start, bytes);
    assert(start.line + bytes =~= bytes);
    let text = RawView { line: bytes, ..start };
    assert((bytes + seq![10u8]).drop_last() =~= bytes);
    assert((bytes + seq![13u8]).drop_last() =~= bytes);
    assert(start.steps(bytes + seq![13u8]) == (RawView { pending_cr: true, ..text }));
    assert((bytes + seq![13u8, 10u8]).drop_last() =~= bytes + seq![13u8]);
    assert((bytes + seq![13u8, 10u8]).last() == 10);
}

/// A sequence that sets colours, `ESC [ parameters m`, is kept byte for byte and
/// leaves no mark.
pub proof fn law_raw_colors_are_kept(state: RawView, parameters: Seq<u8>)
    requires
        !state.pending_cr,
        forall|i: int| 0 <= i < parameters.len() ==> 0x20 <= #[trigger] parameters[i] < 0x40,
        state.line.len() + parameters.len() + 3 <= MAX_SESSION_RAW_LINE_BYTES,
    ensures
        state.steps(seq![27u8, 0x5bu8] + parameters + seq![0x6du8]) == (RawView {
            line: state.line + seq![27u8, 0x5bu8] + parameters + seq![0x6du8],
            escape: Seq::empty(),
            ..state
        }),
{
    let opening = seq![27u8, 0x5bu8];
    lemma_raw_parameters(state, parameters);
    let whole = opening + parameters + seq![0x6du8];
    assert(whole.drop_last() =~= opening + parameters);
    assert((state.line + opening + parameters).push(0x6du8) =~= state.line + opening + parameters
        + seq![0x6du8]);
}

proof fn lemma_raw_parameters(state: RawView, parameters: Seq<u8>)
    requires
        !state.pending_cr,
        forall|i: int| 0 <= i < parameters.len() ==> 0x20 <= #[trigger] parameters[i] < 0x40,
        state.line.len() + parameters.len() + 3 <= MAX_SESSION_RAW_LINE_BYTES,
    ensures
        state.steps(seq![27u8, 0x5bu8] + parameters) == (RawView {
            line: state.line + seq![27u8, 0x5bu8] + parameters,
            escape: seq![27u8, 0x5bu8] + parameters,
            ..state
        }),
    decreases parameters.len(),
{
    let opening = seq![27u8, 0x5bu8];
    if parameters.len() == 0 {
        assert(opening + parameters =~= opening);
        assert(opening.drop_last() =~= seq![27u8]);
        assert(seq![27u8].drop_last() =~= Seq::<u8>::empty());
        reveal_with_fuel(RawView::steps, 3);
        assert(state.line + opening + parameters =~= state.line.push(27u8).push(0x5bu8));
        assert(seq![27u8].push(0x5bu8) =~= opening);
    } else {
        lemma_raw_parameters(state, parameters.drop_last());
        assert((opening + parameters).drop_last() =~= opening + parameters.drop_last());
        assert((state.line + opening + parameters.drop_last()).push(parameters.last())
            =~= state.line + opening + parameters);
        assert((opening + parameters.drop_last()).push(parameters.last()) =~= opening + parameters);
    }
}

/// However many bytes come, a line keeps no more than its limit of them, and so
/// does each line that is finished.
pub proof fn law_raw_lines_are_bounded(state: RawView, bytes: Seq<u8>)
    requires
        state.line.len() <= MAX_SESSION_RAW_LINE_BYTES,
        forall|i: int|
            0 <= i < state.complete.len() ==> (#[trigger] state.complete[i]).0.len()
                <= MAX_SESSION_RAW_LINE_BYTES,
    ensures
        state.steps(bytes).line.len() <= MAX_SESSION_RAW_LINE_BYTES,
        forall|i: int|
            0 <= i < state.steps(bytes).complete.len() ==> (#[trigger] state.steps(
                bytes,
            ).complete[i]).0.len() <= MAX_SESSION_RAW_LINE_BYTES,
    decreases bytes.len(),
{
    if bytes.len() > 0 {
        law_raw_lines_are_bounded(state, bytes.drop_last());
    }
}

/// Each line feed finishes a line as it came, and nothing else does.
pub proof fn law_raw_line_feeds_finish_lines(state: RawView, bytes: Seq<u8>)
    ensures
        state.steps(bytes).complete.len() == state.complete.len() + line_feeds(bytes),
    decreases bytes.len(),
{
    if bytes.len() > 0 {
        law_raw_line_feeds_finish_lines(state, bytes.drop_last());
    }
}

/// Plain bytes have each of their line feeds executed.
pub proof fn lemma_plain_line_feeds(bytes: Seq<u8>)
    ensures
        executed_line_feeds(plain_actions(bytes)) == line_feeds(bytes),
    decreases bytes.len(),
{
    if bytes.len() > 0 {
        lemma_plain_line_feeds(bytes.drop_last());
        assert(plain_actions(bytes).drop_last() =~= plain_actions(bytes.drop_last()));
        assert(plain_actions(bytes).last() == plain_action(bytes.last()));
    }
}

proof fn lemma_earlier_raw_lines(state: RawView, earlier: Seq<(Seq<u8>, bool)>, bytes: Seq<u8>)
    ensures
        ({
            let after = state.steps(bytes);
            RawView { complete: earlier + state.complete, ..state }.steps(bytes) == (RawView {
                complete: earlier + after.complete,
                ..after
            })
        }),
    decreases bytes.len(),
{
    if bytes.len() > 0 {
        lemma_earlier_raw_lines(state, earlier, bytes.drop_last());
        let before = state.steps(bytes.drop_last());
        let line = (before.line, before.rewrite);
        let marked = (before.line, true);
        assert((earlier + before.complete).push(line) =~= earlier + before.complete.push(line));
        assert((earlier + before.complete).push(marked) =~= earlier + before.complete.push(marked));
    }
}

impl StreamView {
    /// The finished lines have been handed out, as they are after each chunk.
    pub open spec fn is_handed_out(self) -> bool {
        self.terminal.complete.len() == 0 && self.raw.complete.len() == 0
    }

    /// Every line feed among bytes is executed: none is part of a sequence that
    /// takes it as its own, as the text of an operating system command does.
    pub open spec fn executes_line_feeds(self, bytes: Seq<u8>) -> bool {
        executed_line_feeds(terminal_actions(self.feed, bytes)) == line_feeds(bytes)
    }
}

/// A chunk finishes one line for each of its line feeds, where all are executed.
pub proof fn law_line_feeds_are_lines(stream: StreamView, bytes: Seq<u8>)
    requires
        stream.is_handed_out(),
        stream.executes_line_feeds(bytes),
    ensures
        stream.finished(bytes).len() == line_feeds(bytes),
        stream.after(bytes).is_handed_out(),
{
    law_line_feeds_finish_lines(stream.terminal, terminal_actions(stream.feed, bytes));
}

/// Output that comes in two chunks finishes the lines that it finishes in one, and
/// leaves the same line unfinished.
pub proof fn law_chunks_in_parts(stream: StreamView, first: Seq<u8>, second: Seq<u8>)
    requires
        stream.is_handed_out(),
        may_be_cut(stream.feed, first, second),
        stream.executes_line_feeds(first),
    ensures
        stream.finished(first + second) == stream.finished(first) + stream.after(first).finished(
            second,
        ),
        stream.after(first + second).terminal == stream.after(first).after(second).terminal,
        stream.after(first + second).raw == stream.after(first).after(second).raw,
{
    let whole = first + second;
    let requests = terminal_actions(stream.feed, first);
    let more = terminal_actions(stream.feed.push(first), second);
    let middle = stream.after(first);
    let nothing = Seq::<Seq<u8>>::empty();
    let shown = stream.decoded(first).complete;
    law_requests_in_parts(stream.terminal, requests, more);
    law_line_feeds_finish_lines(stream.terminal, requests);
    lemma_earlier_lines(middle.terminal, shown, more);
    assert(shown + nothing =~= shown);
    assert(stream.decoded(whole).complete == shown + middle.decoded(second).complete);
    let came = stream.raw.steps(first).complete;
    law_raw_bytes_in_parts(stream.raw, first, second);
    law_raw_line_feeds_finish_lines(stream.raw, first);
    lemma_earlier_raw_lines(middle.raw, came, second);
    assert(came + Seq::<(Seq<u8>, bool)>::empty() =~= came);
    assert(stream.raw.steps(whole).complete == came + middle.raw.steps(second).complete);
    assert(stream.finished(whole) =~= stream.finished(first) + middle.finished(second));
}

impl RawView {
    /// Neither the line nor a finished one holds a line feed.
    pub open spec fn keeps_lines_apart(self) -> bool {
        &&& in_one_line(self.line)
        &&& forall|i: int|
            0 <= i < self.complete.len() ==> in_one_line((#[trigger] self.complete[i]).0)
    }
}

proof fn lemma_raw_lines_stay_apart(state: RawView, bytes: Seq<u8>)
    requires
        state.keeps_lines_apart(),
    ensures
        state.steps(bytes).keeps_lines_apart(),
    decreases bytes.len(),
{
    if bytes.len() > 0 {
        lemma_raw_lines_stay_apart(state, bytes.drop_last());
    }
}

impl StreamView {
    /// The finished lines have been handed out, and what is kept holds no line feed.
    pub open spec fn keeps_lines_apart(self) -> bool {
        &&& self.is_handed_out()
        &&& self.terminal.bounded()
        &&& self.terminal.shows_visible_text()
        &&& self.raw.keeps_lines_apart()
    }
}

/// Lines are kept apart whatever comes: no line that a chunk finishes holds a line
/// feed of its own, and neither does what the chunk leaves.
pub proof fn law_lines_are_kept_apart(stream: StreamView, bytes: Seq<u8>)
    requires
        stream.keeps_lines_apart(),
        prints_visibly(terminal_actions(stream.feed, bytes)),
    ensures
        stream.after(bytes).keeps_lines_apart(),
        forall|i: int|
            0 <= i < stream.finished(bytes).len() ==> in_one_line(
                #[trigger] stream.finished(bytes)[i],
            ),
{
    lemma_lines_stay_visible(stream.terminal, terminal_actions(stream.feed, bytes));
    lemma_raw_lines_stay_apart(stream.raw, bytes);
    assert forall|i: int| 0 <= i < stream.finished(bytes).len() implies in_one_line(
        #[trigger] stream.finished(bytes)[i],
    ) by {
        let shown = stream.decoded(bytes).complete[i];
        assert(in_one_line(without_line_feed(shown)));
    }
}

/// A chunk finishes no more lines than it has line feeds: none where it has none.
pub proof fn law_no_line_without_line_feed(stream: StreamView, bytes: Seq<u8>)
    requires
        stream.is_handed_out(),
        executed_line_feeds(terminal_actions(stream.feed, bytes)) <= line_feeds(bytes),
    ensures
        stream.finished(bytes).len() <= line_feeds(bytes),
        line_feeds(bytes) == 0 ==> stream.executes_line_feeds(bytes),
{
    law_line_feeds_finish_lines(stream.terminal, terminal_actions(stream.feed, bytes));
}

/// Plain output may be cut anywhere: in two chunks it makes the requests that it
/// makes in one.
pub proof fn lemma_plain_may_be_cut(feed: Seq<Seq<u8>>, first: Seq<u8>, second: Seq<u8>)
    requires
        terminal_actions(feed, first) == plain_actions(first),
        terminal_actions(feed.push(first), second) == plain_actions(second),
        terminal_actions(feed, first + second) == plain_actions(first + second),
    ensures
        may_be_cut(feed, first, second),
{
    assert(plain_actions(first + second) =~= plain_actions(first) + plain_actions(second));
}

proof fn lemma_no_line_feeds(bytes: Seq<u8>)
    requires
        is_text(bytes),
    ensures
        line_feeds(bytes) == 0,
    decreases bytes.len(),
{
    if bytes.len() > 0 {
        lemma_no_line_feeds(bytes.drop_last());
    }
}

/// A line of plain text is handed out byte for byte when it is ended, by a line
/// feed or by a carriage return with a line feed, and nothing is left of it.
pub proof fn law_plain_lines_are_kept(stream: StreamView, text: Seq<u8>, ending: Seq<u8>)
    requires
        stream.terminal.complete.len() == 0,
        stream.raw == RawView::fresh(Seq::empty()),
        is_text(text),
        text.len() <= MAX_SESSION_RAW_LINE_BYTES,
        ending == seq![10u8] || ending == seq![13u8, 10u8],
        terminal_actions(stream.feed, text + ending) == plain_actions(text + ending),
    ensures
        stream.finished(text + ending) == seq![text],
        stream.after(text + ending).partial().len() == 0,
        stream.after(text + ending).raw == stream.raw,
{
    let bytes = text + ending;
    law_raw_line_ends(Seq::empty(), text);
    lemma_plain_line_feeds(bytes);
    law_line_feeds_finish_lines(stream.terminal, plain_actions(bytes));
    lemma_no_line_feeds(text);
    if ending == seq![10u8] {
        assert(bytes.drop_last() =~= text);
    } else {
        assert(bytes.drop_last() =~= text + seq![13u8]);
        assert((text + seq![13u8]).drop_last() =~= text);
        assert(line_feeds(text + seq![13u8]) == 0);
    }
    assert(line_feeds(bytes) == 1);
    assert(stream.raw.steps(bytes).complete =~= seq![(text, false)]);
    assert(stream.finished(bytes) =~= seq![text]);
    assert(stream.after(bytes).raw.complete =~= stream.raw.complete);
}

/// A carriage return that no line feed follows marks the line: what was there is
/// written over. The mark stays until the line ends.
pub proof fn law_rewritten_lines_are_marked(state: RawView, byte: u8)
    requires
        byte != 10,
    ensures
        state.pending_cr ==> state.step(byte).rewrite,
        state.rewrite ==> state.step(byte).rewrite,
        state.step(byte).complete == state.complete,
        state.step(byte).pending_cr <==> byte == 13,
{
}

/// A line feed ends the line in any state: the line is kept with its mark, and an
/// empty one without a mark begins.
pub proof fn law_line_feeds_end_the_raw_line(state: RawView)
    ensures
        ({
            let after = state.step(10u8);
            &&& after.line.len() == 0
            &&& !after.rewrite && !after.pending_cr && after.escape.len() == 0
            &&& after.complete.len() == state.complete.len() + 1
            &&& after.complete.drop_last() == state.complete
            &&& after.complete.last().0 == state.line
            &&& after.complete.last().1 == state.rewrite
        }),
{
    assert(state.step(10u8).complete.drop_last() =~= state.complete);
}

/// A byte that finds no room marks the line, and is not kept.
pub proof fn law_overlong_lines_are_marked(state: RawView, byte: u8)
    requires
        byte != 10,
        byte != 13,
        state.line.len() >= 4096,
    ensures
        state.step(byte).rewrite,
        state.step(byte).line == state.line,
{
}

/// An escape sequence that is not a control sequence, and a control sequence that
/// ends otherwise than with `m`, mark the line; parameters go on with the sequence.
pub proof fn law_other_sequences_mark_the_line(state: RawView, byte: u8)
    requires
        !state.pending_cr,
        byte != 10,
        byte != 13,
        byte != 27,
    ensures
        state.escape == seq![27u8] && byte != 0x5b ==> state.step(byte).rewrite && state.step(
            byte,
        ).escape.len() == 0,
        state.escape == seq![27u8] && byte == 0x5b && state.line.len() < 4096 ==> state.step(
            byte,
        ).rewrite == state.rewrite && state.step(byte).escape == seq![27u8, 0x5bu8],
        state.escape.len() >= 2 && 0x40 <= byte <= 0x7e && byte != 0x6d ==> state.step(byte).rewrite
            && state.step(byte).escape.len() == 0,
        state.escape.len() >= 2 && !(0x40 <= byte <= 0x7e) && state.line.len() < 4096
            ==> state.step(byte).rewrite == state.rewrite && state.step(byte).escape
            == state.escape.push(byte),
{
    assert(seq![27u8].push(0x5bu8) =~= seq![27u8, 0x5bu8]);
}

/// A finished line that bears no mark is handed out as it came; one that does is
/// handed out as the terminal shows it, without its line feed.
pub proof fn law_marks_choose_the_line(stream: StreamView, bytes: Seq<u8>, i: int)
    requires
        0 <= i < stream.decoded(bytes).complete.len(),
        i < stream.raw.steps(bytes).complete.len(),
    ensures
        ({
            let (came, marked) = stream.raw.steps(bytes).complete[i];
            let shown = stream.decoded(bytes).complete[i];
            &&& stream.finished(bytes).len() == stream.decoded(bytes).complete.len()
            &&& !marked ==> stream.finished(bytes)[i] == came
            &&& marked && shown.len() > 0 && shown.last() == 10 ==> stream.finished(bytes)[i].push(
                10u8,
            ) == shown
        }),
{
    let (came, marked) = stream.raw.steps(bytes).complete[i];
    let shown = stream.decoded(bytes).complete[i];
    if marked && shown.len() > 0 && shown.last() == 10 {
        assert(stream.finished(bytes)[i].push(10u8) =~= shown);
    }
}

/// The unfinished line is shown as it came while it bears no mark, and else as the
/// terminal shows it.
pub proof fn law_marks_choose_the_unfinished_line(stream: StreamView)
    ensures
        !stream.raw.rewrite ==> stream.partial() == stream.raw.line,
        stream.raw.rewrite ==> stream.partial() == stream.terminal.visible(),
{
}

/// Text that is written over from the start of the line, after a bare carriage
/// return, is handed out as it then reads: the new text, and what stands behind it
/// of the old.
pub proof fn law_overwritten_lines_read_as_shown(
    stream: StreamView,
    old_text: Seq<u8>,
    new_text: Seq<u8>,
)
    requires
        stream == fresh_stream(),
        is_printable(old_text),
        is_printable(new_text),
        new_text.len() > 0,
        old_text.len() + new_text.len() <= 4096,
        chunk_is_known(stream.feed, old_text + seq![13u8] + new_text + seq![10u8]),
    ensures
        stream.finished(old_text + seq![13u8] + new_text + seq![10u8]) == seq![
            new_text + (if new_text.len() < old_text.len() {
                old_text.skip(new_text.len() as int)
            } else {
                Seq::empty()
            }),
        ],
{
    let bytes = old_text + seq![13u8] + new_text + seq![10u8];
    let none = Seq::<Seq<u8>>::empty();
    let nothing = Seq::<char>::empty();
    let first = ascii_text(old_text);
    let second = ascii_text(new_text);
    assert(is_plain(bytes)) by {
        assert forall|i: int| 0 <= i < bytes.len() implies #[trigger] bytes[i] < 0x80 && bytes[i]
            != 0x1b by {
            if i < old_text.len() {
                assert(bytes[i] == old_text[i]);
            } else if old_text.len() < i < old_text.len() + 1 + new_text.len() {
                assert(bytes[i] == new_text[i - old_text.len() - 1]);
            }
        }
    }
    let actions = terminal_actions(stream.feed, bytes);
    let back = seq![TermAction::Execute(13u8)];
    let end = seq![TermAction::Execute(10u8)];
    assert(actions == plain_actions(bytes));
    assert(actions =~= prints(first) + back + prints(second) + end) by {
        assert forall|i: int| 0 <= i < bytes.len() implies actions[i] == #[trigger] (prints(first)
            + back + prints(second) + end)[i] by {
            assert(actions[i] == plain_action(bytes[i]));
            if i < old_text.len() {
                assert(bytes[i] == old_text[i]);
            } else if old_text.len() < i < old_text.len() + 1 + new_text.len() {
                assert(bytes[i] == new_text[i - old_text.len() - 1]);
            }
        }
    }
    assert(is_narrow(first)) by {
        assert forall|i: int| 0 <= i < first.len() implies char_columns(#[trigger] first[i])
            == Some(1usize) by {
            assert(bytes[i] == old_text[i]);
            assert(actions[i] == TermAction::Print(first[i]));
        }
    }
    assert(is_narrow(second)) by {
        assert forall|i: int| 0 <= i < second.len() implies char_columns(#[trigger] second[i])
            == Some(1usize) by {
            let place = i + old_text.len() + 1;
            assert(bytes[place] == new_text[i]);
            assert(actions[place] == TermAction::Print(second[i]));
        }
    }
    let start = blank_line();
    law_requests_in_parts(start, prints(first) + back + prints(second), end);
    law_requests_in_parts(start, prints(first) + back, prints(second));
    law_requests_in_parts(start, prints(first), back);
    assert(text_cells(nothing) =~= start.cells);
    law_text_overwrites(nothing, 0, none, first);
    assert(nothing.take(0) + first + nothing =~= first);
    let printed = TermView { cells: text_cells(first), cursor: first.len() as int, complete: none };
    assert(start.apply_all(prints(first)) == printed);
    let returned = TermView { cells: text_cells(first), cursor: 0, complete: none };
    assert(back.drop_last() =~= Seq::<TermAction>::empty());
    assert(printed.apply_all(back) == printed.apply_all(back.drop_last()).apply(back.last()));
    assert(printed.apply_all(back) == returned);
    law_text_overwrites(first, 0, none, second);
    let rest = if second.len() < first.len() {
        first.skip(second.len() as int)
    } else {
        nothing
    };
    let mixed = first.take(0) + second + rest;
    let over = TermView { cells: text_cells(mixed), cursor: second.len() as int, complete: none };
    assert(returned.apply_all(prints(second)) == over);
    assert(end.drop_last() =~= Seq::<TermAction>::empty());
    assert(over.apply_all(end) == over.apply_all(end.drop_last()).apply(end.last()));
    let expected = new_text + (if new_text.len() < old_text.len() {
        old_text.skip(new_text.len() as int)
    } else {
        Seq::empty()
    });
    assert(mixed =~= ascii_text(expected));
    assert(is_printable(expected)) by {
        assert forall|i: int| 0 <= i < expected.len() implies 0x20 <= #[trigger] expected[i]
            <= 0x7e by {
            if i < new_text.len() {
                assert(expected[i] == new_text[i]);
            } else {
                assert(expected[i] == old_text[i]);
            }
        }
    }
    lemma_ascii_text_bytes(expected);
    assert(over.visible() == expected);
    assert(stream.decoded(bytes).complete =~= seq![expected.push(10u8)]);
    lemma_rewritten_raw(old_text, new_text);
    let raw = stream.raw.steps(bytes);
    assert(raw.complete.len() == 1 && raw.complete[0].1);
    assert(expected.push(10u8).drop_last() =~= expected);
    assert(stream.finished(bytes) =~= seq![expected]);
}

proof fn lemma_rewritten_raw(old_text: Seq<u8>, new_text: Seq<u8>)
    requires
        is_printable(old_text),
        is_printable(new_text),
        new_text.len() > 0,
        old_text.len() + new_text.len() <= 4096,
    ensures
        ({
            let raw = RawView::fresh(Seq::empty()).steps(
                old_text + seq![13u8] + new_text + seq![10u8],
            );
            raw.complete.len() == 1 && raw.complete[0].1
        }),
{
    let start = RawView::fresh(Seq::empty());
    assert(is_text(old_text)) by {
        assert forall|i: int| 0 <= i < old_text.len() implies #[trigger] old_text[i] != 10
            && old_text[i] != 13 && old_text[i] != 27 by {
            assert(0x20 <= old_text[i]);
        }
    }
    law_raw_text_is_kept(start, old_text);
    let front = old_text + seq![13u8];
    assert(front.drop_last() =~= old_text);
    let waiting = start.steps(front);
    assert(waiting.pending_cr && waiting.complete.len() == 0);
    law_raw_bytes_in_parts(start, front, new_text);
    lemma_marked_text(waiting, new_text);
    let all = front + new_text + seq![10u8];
    assert(all.drop_last() =~= front + new_text);
    assert(all =~= old_text + seq![13u8] + new_text + seq![10u8]);
    law_line_feeds_end_the_raw_line(start.steps(front + new_text));
}

proof fn lemma_marked_text(state: RawView, text: Seq<u8>)
    requires
        state.pending_cr,
        is_printable(text),
    ensures
        text.len() > 0 ==> state.steps(text).rewrite && !state.steps(text).pending_cr,
        state.steps(text).complete == state.complete,
    decreases text.len(),
{
    if text.len() > 0 {
        assert(0x20 <= text.last());
        assert forall|i: int| 0 <= i < text.drop_last().len() implies 0x20
            <= #[trigger] text.drop_last()[i] <= 0x7e by {
            assert(text.drop_last()[i] == text[i]);
        }
        lemma_marked_text(state, text.drop_last());
        law_rewritten_lines_are_marked(state.steps(text.drop_last()), text.last());
    }
}

} // verus!
