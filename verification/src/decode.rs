//! Decoding of defmt channels.
use crate::elf::{modules_view, table_source, DefmtData};
use crate::filter::Level;
use crate::text::{between, decimal, decimal_string, followed};
use std::collections::BTreeMap;
use vstd::prelude::*;

verus! {

/// The most frames that are decoded at once.
pub const MAX_DECODED_FRAMES: usize = 1024;

/// The most attempts to decode a frame that are made at once.
pub const MAX_DECODE_ITERATIONS: usize = 4096;

/// The most warnings that are reported one by one.
pub const MAX_DECODE_WARNINGS: u64 = 8;

/// The most bytes that a decoder is handed before it is replaced.
pub const MAX_DECODE_BUFFERED_BYTES: usize = 65536;

/// A frame as defmt-decoder hands it out.
pub struct PlainFrame {
    pub index: u64,
    pub level: Option<Level>,
    pub message: String,
    pub timestamp: Option<String>,
}

/// What an attempt to decode a frame comes to.
pub enum FrameOutcome {
    Frame(PlainFrame),
    /// More data is needed.
    UnexpectedEof,
    /// The data makes no frame; the text says why.
    Malformed(String),
}

/// An outcome as a value.
pub enum OutcomeView {
    Frame {
        index: u64,
        level: Option<Level>,
        message: Seq<char>,
        timestamp: Option<Seq<char>>,
    },
    UnexpectedEof,
    Malformed(Seq<char>),
}

/// A text, where there is one.
pub open spec fn optional_text(text: Option<String>) -> Option<Seq<char>> {
    match text {
        Some(text) => Some(text@),
        None => None,
    }
}

impl View for FrameOutcome {
    type V = OutcomeView;

    open spec fn view(&self) -> OutcomeView {
        match self {
            FrameOutcome::Frame(frame) => OutcomeView::Frame {
                index: frame.index,
                level: frame.level,
                message: frame.message@,
                timestamp: optional_text(frame.timestamp),
            },
            FrameOutcome::UnexpectedEof => OutcomeView::UnexpectedEof,
            FrameOutcome::Malformed(text) => OutcomeView::Malformed(text@),
        }
    }
}

/// A stream decoder of defmt-decoder, which only exists behind a trait.
#[verifier::external_body]
pub struct Decoder<'t> {
    inner: Box<dyn defmt_decoder::StreamDecoder + Send + Sync + 't>,
}

/// The ELF file whose table a decoder works with.
pub uninterp spec fn decoder_elf(decoder: Decoder<'_>) -> Seq<u8>;

/// The calls that a decoder has had, in order: a chunk of data for each
/// `received`, nothing for each `decode`.
pub uninterp spec fn decoder_calls(decoder: Decoder<'_>) -> Seq<Option<Seq<u8>>>;

/// What a decoder answers to `decode`, by the table that it works with and the
/// calls that it has had before.
pub uninterp spec fn decode_outcome(elf: Seq<u8>, calls: Seq<Option<Seq<u8>>>) -> OutcomeView;

/// The calls after which a decoder for a table answers one more `decode`. After
/// others it stops the program: defmt-decoder does so where the data fits a format
/// string of the table but not what the format string wants to show, as an `isize`
/// in hexadecimal digits or a date beyond those that it can write, and where data is
/// nested deeper than the stack holds.
pub uninterp spec fn decode_answers(elf: Seq<u8>) -> Set<Seq<Option<Seq<u8>>>>;

/// Calls `Table::new_stream_decoder` of defmt-decoder.
#[verifier::external_body]
fn new_stream_decoder(table: &defmt_decoder::Table) -> (decoder: Decoder<'_>)
    ensures
        decoder_elf(decoder) == table_source(*table),
        decoder_calls(decoder) == Seq::<Option<Seq<u8>>>::empty(),
{
    Decoder { inner: table.new_stream_decoder() }
}

/// Calls `StreamDecoder::received` of defmt-decoder.
#[verifier::external_body]
fn received(decoder: &mut Decoder<'_>, bytes: &[u8])
    ensures
        decoder_elf(*final(decoder)) == decoder_elf(*old(decoder)),
        decoder_calls(*final(decoder)) == decoder_calls(*old(decoder)).push(Some(bytes@)),
{
    decoder.inner.received(bytes)
}

/// Calls `StreamDecoder::decode` of defmt-decoder and writes out the frame that it
/// finds. The answer depends on the table and on the calls before. The text of the
/// error for data that makes no frame is always the same. The calls before must be
/// such that there is an answer.
#[verifier::external_body]
fn decode(decoder: &mut Decoder<'_>) -> (outcome: FrameOutcome)
    requires
        decode_answers(decoder_elf(*old(decoder))).contains(decoder_calls(*old(decoder))),
    ensures
        decode_answers(decoder_elf(*old(decoder))).contains(decoder_calls(*old(decoder))),
        decoder_elf(*final(decoder)) == decoder_elf(*old(decoder)),
        decoder_calls(*final(decoder)) == decoder_calls(*old(decoder)).push(None),
        outcome@ == decode_outcome(decoder_elf(*old(decoder)), decoder_calls(*old(decoder))),
        outcome matches FrameOutcome::Malformed(text) ==> text@ == "malformed data"@,
{
    match decoder.inner.decode() {
        Ok(frame) => FrameOutcome::Frame(PlainFrame {
            level: frame.level().map(|level| match level {
                defmt_parser::Level::Trace => Level::Trace,
                defmt_parser::Level::Debug => Level::Debug,
                defmt_parser::Level::Info => Level::Info,
                defmt_parser::Level::Warn => Level::Warn,
                defmt_parser::Level::Error => Level::Error,
            }),
            timestamp: frame.display_timestamp().map(|timestamp| timestamp.to_string()),
            index: frame.index(), message: frame.display_message().to_string(),
        }),
        Err(defmt_decoder::DecodeError::UnexpectedEof) => FrameOutcome::UnexpectedEof,
        Err(error) => FrameOutcome::Malformed(error.to_string()),
    }
}

impl DefmtData {
    /// A decoder for a channel of this table.
    pub fn new_decoder(&self) -> (decoder: Decoder<'_>)
        ensures
            decoder_elf(decoder) == self.elf(),
            decoder_calls(decoder) == Seq::<Option<Seq<u8>>>::empty(),
    {
        new_stream_decoder(&self.table)
    }
}

/// A message, with the module that it comes from.
#[derive(Debug)]
pub struct DecodedFrame {
    pub message: String,
    pub timestamp: Option<String>,
    pub level: Option<Level>,
    pub module: Option<String>,
}

/// A message as a value.
pub struct FrameView {
    pub message: Seq<char>,
    pub timestamp: Option<Seq<char>>,
    pub level: Option<Level>,
    pub module: Option<Seq<char>>,
}

impl View for DecodedFrame {
    type V = FrameView;

    open spec fn view(&self) -> FrameView {
        FrameView {
            message: self.message@,
            timestamp: optional_text(self.timestamp),
            level: self.level,
            module: optional_text(self.module),
        }
    }
}

/// What comes out of a defmt channel.
#[derive(Debug)]
pub enum DecodeOutput {
    Frame(DecodedFrame),
    Warning(String),
}

/// What comes out of a defmt channel, as a value.
pub enum OutputView {
    Frame(FrameView),
    Warning(Seq<char>),
}

impl View for DecodeOutput {
    type V = OutputView;

    open spec fn view(&self) -> OutputView {
        match self {
            DecodeOutput::Frame(frame) => OutputView::Frame(frame@),
            DecodeOutput::Warning(warning) => OutputView::Warning(warning@),
        }
    }
}

/// Outputs as values.
pub open spec fn outputs_view(outputs: Seq<DecodeOutput>) -> Seq<OutputView> {
    outputs.map_values(|output: DecodeOutput| output@)
}

/// Result of decoding the bytes received during one poll of a defmt channel.
#[derive(Debug)]
pub struct DecodedFrames {
    pub frames: Vec<DecodeOutput>,
    pub warnings: u64,
    pub suppressed_warnings: u64,
    pub hit_frame_limit: bool,
    /// Set when the decoder cannot make progress and must be recreated.
    pub restart: bool,
}

/// A result as a value.
pub struct ResultView {
    pub frames: Seq<OutputView>,
    pub warnings: u64,
    pub suppressed_warnings: u64,
    pub hit_frame_limit: bool,
    pub restart: bool,
}

impl View for DecodedFrames {
    type V = ResultView;

    open spec fn view(&self) -> ResultView {
        ResultView {
            frames: outputs_view(self.frames@),
            warnings: self.warnings,
            suppressed_warnings: self.suppressed_warnings,
            hit_frame_limit: self.hit_frame_limit,
            restart: self.restart,
        }
    }
}

/// Where the decoding of a chunk stands.
pub struct CollectView {
    pub result: ResultView,
    /// The attempts that were made.
    pub iterations: int,
    /// No further attempt is made.
    pub done: bool,
}

impl ResultView {
    /// Nothing has come out yet.
    pub open spec fn empty() -> ResultView {
        ResultView {
            frames: Seq::empty(),
            warnings: 0,
            suppressed_warnings: 0,
            hit_frame_limit: false,
            restart: false,
        }
    }

    /// One more output.
    pub open spec fn with(self, output: OutputView) -> ResultView {
        ResultView { frames: self.frames.push(output), ..self }
    }

    /// The warnings that were not reported one by one are reported in sum.
    pub open spec fn summed_up(self) -> ResultView {
        if self.suppressed_warnings > 0 {
            self.with(
                OutputView::Warning(
                    decimal(self.suppressed_warnings as nat)
                        + " further defmt decode warnings suppressed"@,
                ),
            )
        } else {
            self
        }
    }
}

impl CollectView {
    /// Nothing has been tried yet.
    pub open spec fn start() -> CollectView {
        CollectView { result: ResultView::empty(), iterations: 0, done: false }
    }

    /// The limits are held against what has come out: too many frames are left for
    /// the next time, too many attempts call for a new decoder.
    pub open spec fn limited(self) -> CollectView {
        if self.result.frames.len() >= MAX_DECODED_FRAMES {
            CollectView {
                result: ResultView { hit_frame_limit: true, ..self.result },
                done: true,
                ..self
            }
        } else if self.iterations >= MAX_DECODE_ITERATIONS {
            CollectView {
                result: ResultView {
                    suppressed_warnings: (self.result.suppressed_warnings + 1) as u64,
                    restart: true,
                    ..self.result
                },
                done: true,
                ..self
            }
        } else {
            self
        }
    }

    /// What an attempt comes to is taken in. An encoding that can recover goes on
    /// after an error; another asks for a new decoder.
    pub open spec fn take(
        self,
        outcome: OutcomeView,
        modules: Option<Map<u64, Seq<char>>>,
        can_recover: bool,
    ) -> CollectView {
        let tried = CollectView { iterations: self.iterations + 1, ..self };
        match outcome {
            OutcomeView::Frame { index, level, message, timestamp } => CollectView {
                result: self.result.with(
                    OutputView::Frame(
                        FrameView {
                            message,
                            timestamp,
                            level,
                            module: module_of(modules, index),
                        },
                    ),
                ),
                ..tried
            },
            OutcomeView::UnexpectedEof => CollectView { done: true, ..tried },
            OutcomeView::Malformed(text) => {
                let counted = ResultView {
                    warnings: (self.result.warnings + 1) as u64,
                    ..self.result
                };
                if !can_recover {
                    CollectView {
                        result: ResultView {
                            restart: true,
                            ..counted.with(
                                OutputView::Warning(
                                    "defmt decode warning: "@ + text + "; resetting decoder"@,
                                ),
                            )
                        },
                        done: true,
                        ..tried
                    }
                } else if counted.warnings <= MAX_DECODE_WARNINGS {
                    CollectView {
                        result: counted.with(
                            OutputView::Warning("defmt decode warning: "@ + text),
                        ),
                        ..tried
                    }
                } else {
                    CollectView {
                        result: ResultView {
                            suppressed_warnings: (counted.suppressed_warnings + 1) as u64,
                            ..counted
                        },
                        ..tried
                    }
                }
            },
        }
    }

    /// Attempts are made until one is the last.
    pub open spec fn run(
        self,
        elf: Seq<u8>,
        calls: Seq<Option<Seq<u8>>>,
        modules: Option<Map<u64, Seq<char>>>,
        can_recover: bool,
    ) -> (CollectView, Seq<Option<Seq<u8>>>)
        decreases MAX_DECODE_ITERATIONS - self.iterations,
    {
        if self.done {
            (self, calls)
        } else if self.limited().done || self.iterations >= MAX_DECODE_ITERATIONS {
            (self.limited(), calls)
        } else {
            self.take(decode_outcome(elf, calls), modules, can_recover).run(
                elf,
                calls.push(None),
                modules,
                can_recover,
            )
        }
    }
}

impl CollectView {
    /// The decoder answers each attempt that is made.
    pub open spec fn answered(
        self,
        elf: Seq<u8>,
        calls: Seq<Option<Seq<u8>>>,
        modules: Option<Map<u64, Seq<char>>>,
        can_recover: bool,
    ) -> bool
        decreases MAX_DECODE_ITERATIONS - self.iterations,
    {
        if self.done || self.limited().done || self.iterations >= MAX_DECODE_ITERATIONS {
            true
        } else {
            decode_answers(elf).contains(calls) && self.take(
                decode_outcome(elf, calls),
                modules,
                can_recover,
            ).answered(elf, calls.push(None), modules, can_recover)
        }
    }
}

/// The module of a message, where it is known.
pub open spec fn module_of(modules: Option<Map<u64, Seq<char>>>, index: u64) -> Option<Seq<char>> {
    match modules {
        Some(modules) => if modules.contains_key(index) {
            Some(modules[index])
        } else {
            None
        },
        None => None,
    }
}

/// Finds the module of a message.
fn find_module(modules: &Option<BTreeMap<u64, String>>, index: u64) -> (module: Option<String>)
    ensures
        optional_text(module) == module_of(modules_view(*modules), index),
{
    broadcast use vstd::std_specs::btree::group_btree_axioms;

    match modules {
        Some(modules) => match modules.get(&index) {
            Some(name) => {
                let copy = name.clone();
                Some(copy)
            },
            None => None,
        },
        None => None,
    }
}

/// Gathers what comes out of a defmt channel, attempt by attempt.
pub struct Collector {
    pub result: DecodedFrames,
    pub iterations: usize,
    pub done: bool,
}

impl View for Collector {
    type V = CollectView;

    open spec fn view(&self) -> CollectView {
        CollectView {
            result: self.result@,
            iterations: self.iterations as int,
            done: self.done,
        }
    }
}

impl Collector {
    /// The counts are within what the attempts allow.
    pub open spec fn wf(self) -> bool {
        &&& self.iterations <= MAX_DECODE_ITERATIONS
        &&& self.result.warnings <= self.iterations
        &&& self.result.suppressed_warnings <= self.iterations + 1
        &&& !self.done ==> self.result.suppressed_warnings <= self.iterations
    }

    /// Nothing has been tried yet.
    pub fn new() -> (collector: Self)
        ensures
            collector.wf(),
            collector@ == CollectView::start(),
    {
        let collector = Collector {
            result: DecodedFrames {
                frames: Vec::new(),
                warnings: 0,
                suppressed_warnings: 0,
                hit_frame_limit: false,
                restart: false,
            },
            iterations: 0,
            done: false,
        };
        assert(collector@.result.frames =~= Seq::<OutputView>::empty());
        collector
    }

    /// Decides whether another attempt is made.
    pub fn wants_more(&mut self) -> (more: bool)
        requires
            old(self).wf(),
        ensures
            final(self).wf(),
            final(self)@ == (if old(self).done {
                old(self)@
            } else {
                old(self)@.limited()
            }),
            more == !final(self).done,
            more ==> final(self).iterations < MAX_DECODE_ITERATIONS,
    {
        if self.done {
            return false;
        }
        if self.result.frames.len() >= MAX_DECODED_FRAMES {
            self.result.hit_frame_limit = true;
            self.done = true;
        } else if self.iterations >= MAX_DECODE_ITERATIONS {
            self.result.suppressed_warnings = self.result.suppressed_warnings + 1;
            self.result.restart = true;
            self.done = true;
        }
        !self.done
    }

    fn push(&mut self, output: DecodeOutput)
        ensures
            final(self)@ == (CollectView { result: old(self)@.result.with(output@), ..old(self)@ }),
            old(self).wf() ==> final(self).wf(),
    {
        self.result.frames.push(output);
        assert(self@.result.frames =~= old(self)@.result.frames.push(output@));
    }

    /// Takes in what an attempt came to.
    pub fn take(
        &mut self,
        outcome: FrameOutcome,
        modules: &Option<BTreeMap<u64, String>>,
        can_recover: bool,
    )
        requires
            old(self).wf(),
            !old(self).done,
            old(self).iterations < MAX_DECODE_ITERATIONS,
        ensures
            final(self).wf(),
            final(self)@ == old(self)@.take(outcome@, modules_view(*modules), can_recover),
    {
        self.iterations = self.iterations + 1;
        match outcome {
            FrameOutcome::Frame(frame) => {
                let module = find_module(modules, frame.index);
                self.push(
                    DecodeOutput::Frame(
                        DecodedFrame {
                            message: frame.message,
                            timestamp: frame.timestamp,
                            level: frame.level,
                            module,
                        },
                    ),
                );
            },
            FrameOutcome::UnexpectedEof => {
                self.done = true;
            },
            FrameOutcome::Malformed(text) => {
                self.result.warnings = self.result.warnings + 1;
                if !can_recover {
                    let warning = between(
                        "defmt decode warning: ",
                        text.as_str(),
                        "; resetting decoder",
                    );
                    self.push(DecodeOutput::Warning(warning));
                    self.result.restart = true;
                    self.done = true;
                } else if self.result.warnings <= MAX_DECODE_WARNINGS {
                    let warning = followed("defmt decode warning: ", text.as_str());
                    self.push(DecodeOutput::Warning(warning));
                } else {
                    self.result.suppressed_warnings = self.result.suppressed_warnings + 1;
                }
            },
        }
    }

    /// Hands out what has come, with the sum of the warnings that were held back.
    pub fn finish(self) -> (result: DecodedFrames)
        ensures
            result@ == self@.result.summed_up(),
    {
        let mut result = self.result;
        if result.suppressed_warnings > 0 {
            let count = decimal_string(result.suppressed_warnings);
            let text = followed(count.as_str(), " further defmt decode warnings suppressed");
            let warning = DecodeOutput::Warning(text);
            result.frames.push(warning);
            assert(outputs_view(result.frames@) =~= self@.result.frames.push(warning@));
        }
        result
    }
}

/// Decodes all complete frames from the channel decoder.
///
/// Decode errors are reported as warnings and never fail the session. Framed
/// encodings resynchronize after a consumed frame; raw encodings cannot, so
/// they request a decoder restart after reporting the error.
pub fn decode_frames(
    decoder: &mut Decoder<'_>,
    bytes: &[u8],
    modules: &Option<BTreeMap<u64, String>>,
    can_recover: bool,
) -> (result: DecodedFrames)
    requires
        CollectView::start().answered(
            decoder_elf(*old(decoder)),
            decoder_calls(*old(decoder)).push(Some(bytes@)),
            modules_view(*modules),
            can_recover,
        ),
    ensures
        decoder_elf(*final(decoder)) == decoder_elf(*old(decoder)),
        ({
            let (collected, calls) = CollectView::start().run(
                decoder_elf(*old(decoder)),
                decoder_calls(*old(decoder)).push(Some(bytes@)),
                modules_view(*modules),
                can_recover,
            );
            &&& result@ == collected.result.summed_up()
            &&& decoder_calls(*final(decoder)) == calls
        }),
{
    let ghost elf = decoder_elf(*decoder);
    let ghost start = decoder_calls(*decoder).push(Some(bytes@));
    let ghost names = modules_view(*modules);
    let ghost wanted = CollectView::start().run(elf, start, names, can_recover);
    received(decoder, bytes);
    let mut collector = Collector::new();
    loop
        invariant_except_break
            wanted == collector@.run(elf, decoder_calls(*decoder), names, can_recover),
            collector@.answered(elf, decoder_calls(*decoder), names, can_recover),
        invariant
            collector.wf(),
            elf == decoder_elf(*decoder),
            names == modules_view(*modules),
        ensures
            wanted == (collector@, decoder_calls(*decoder)),
        decreases MAX_DECODE_ITERATIONS - collector.iterations,
    {
        if !collector.wants_more() {
            break ;
        }
        let outcome = decode(decoder);
        collector.take(outcome, modules, can_recover);
    }
    collector.finish()
}

/// The warnings among outputs.
pub open spec fn warning_count(outputs: Seq<OutputView>) -> int
    decreases outputs.len(),
{
    if outputs.len() == 0 {
        0
    } else {
        warning_count(outputs.drop_last()) + (if outputs.last() is Warning {
            1int
        } else {
            0
        })
    }
}

/// However long the data is and whatever it holds, one call makes a bounded number
/// of attempts, hands out a bounded number of frames and, of an encoding that can
/// recover, a bounded number of warnings.
pub proof fn law_decoding_is_bounded(
    elf: Seq<u8>,
    calls: Seq<Option<Seq<u8>>>,
    modules: Option<Map<u64, Seq<char>>>,
    can_recover: bool,
)
    ensures
        ({
            let end = CollectView::start().run(elf, calls, modules, can_recover).0;
            &&& end.iterations <= MAX_DECODE_ITERATIONS
            &&& end.result.summed_up().frames.len() <= MAX_DECODED_FRAMES + 1
            &&& can_recover ==> warning_count(end.result.summed_up().frames) <= MAX_DECODE_WARNINGS
                + 1
        }),
{
    lemma_run_is_bounded(CollectView::start(), elf, calls, modules, can_recover);
    let end = CollectView::start().run(elf, calls, modules, can_recover).0;
    let summed = end.result.summed_up();
    if end.result.suppressed_warnings > 0 {
        assert(summed.frames.drop_last() =~= end.result.frames);
    }
}

/// What holds of the counts between attempts.
pub open spec fn counts_hold(state: CollectView, can_recover: bool) -> bool {
    &&& 0 <= state.iterations <= MAX_DECODE_ITERATIONS
    &&& state.result.frames.len() <= MAX_DECODED_FRAMES
    &&& state.result.warnings <= state.iterations
    &&& can_recover ==> warning_count(state.result.frames) <= MAX_DECODE_WARNINGS && warning_count(
        state.result.frames,
    ) <= state.result.warnings
}

proof fn lemma_run_is_bounded(
    state: CollectView,
    elf: Seq<u8>,
    calls: Seq<Option<Seq<u8>>>,
    modules: Option<Map<u64, Seq<char>>>,
    can_recover: bool,
)
    requires
        counts_hold(state, can_recover),
    ensures
        counts_hold(state.run(elf, calls, modules, can_recover).0, can_recover),
    decreases MAX_DECODE_ITERATIONS - state.iterations,
{
    if !state.done && !state.limited().done && state.iterations < MAX_DECODE_ITERATIONS {
        let outcome = decode_outcome(elf, calls);
        let next = state.take(outcome, modules, can_recover);
        if next.result.frames.len() > state.result.frames.len() {
            assert(next.result.frames.drop_last() =~= state.result.frames);
        }
        lemma_run_is_bounded(next, elf, calls.push(None), modules, can_recover);
    }
}

/// Why no further attempt was made: a new decoder is asked for where data made no
/// frame in an encoding that cannot recover, and where the attempts are used up
/// before the frames and the data are. None is asked for where the frame limit is
/// reached.
pub open spec fn ends_for_a_reason(
    end: CollectView,
    elf: Seq<u8>,
    calls: Seq<Option<Seq<u8>>>,
    can_recover: bool,
) -> bool {
    &&& end.done
    &&& end.result.restart <==> {
        ||| !can_recover && end.result.warnings > 0
        ||| end.iterations == MAX_DECODE_ITERATIONS && !end.result.hit_frame_limit
            && decode_outcome(elf, calls.drop_last()) !is UnexpectedEof
    }
    &&& end.result.hit_frame_limit ==> !end.result.restart && end.result.frames.len()
        >= MAX_DECODED_FRAMES
}

/// A new decoder is asked for exactly where data made no frame in an encoding that
/// cannot recover, or where the attempts are used up while neither the frame limit
/// is reached nor the last attempt found the data at its end.
pub proof fn law_restart_has_a_reason(
    elf: Seq<u8>,
    calls: Seq<Option<Seq<u8>>>,
    modules: Option<Map<u64, Seq<char>>>,
    can_recover: bool,
)
    ensures
        ({
            let (end, made) = CollectView::start().run(elf, calls, modules, can_recover);
            ends_for_a_reason(end, elf, made, can_recover)
        }),
{
    lemma_restart_reason(CollectView::start(), elf, calls, modules, can_recover);
}

/// What holds between attempts.
spec fn goes_on(
    state: CollectView,
    elf: Seq<u8>,
    calls: Seq<Option<Seq<u8>>>,
    can_recover: bool,
) -> bool {
    &&& !state.done && !state.result.restart && !state.result.hit_frame_limit
    &&& 0 <= state.iterations <= MAX_DECODE_ITERATIONS
    &&& state.result.warnings <= state.iterations
    &&& !can_recover ==> state.result.warnings == 0
    &&& state.iterations > 0 ==> decode_outcome(elf, calls.drop_last()) !is UnexpectedEof
}

proof fn lemma_restart_reason(
    state: CollectView,
    elf: Seq<u8>,
    calls: Seq<Option<Seq<u8>>>,
    modules: Option<Map<u64, Seq<char>>>,
    can_recover: bool,
)
    requires
        goes_on(state, elf, calls, can_recover) || ends_for_a_reason(
            state,
            elf,
            calls,
            can_recover,
        ),
    ensures
        ({
            let (end, made) = state.run(elf, calls, modules, can_recover);
            ends_for_a_reason(end, elf, made, can_recover)
        }),
    decreases MAX_DECODE_ITERATIONS - state.iterations,
{
    if !state.done && !state.limited().done && state.iterations < MAX_DECODE_ITERATIONS {
        let outcome = decode_outcome(elf, calls);
        let next = state.take(outcome, modules, can_recover);
        assert(calls.push(None).drop_last() =~= calls);
        lemma_restart_reason(next, elf, calls.push(None), modules, can_recover);
    }
}

/// A frame is handed out behind those before it, with its text, time stamp and level
/// and with the name of the module that the table gives for its index; decoding goes
/// on.
pub proof fn law_frames_come_out(
    state: CollectView,
    index: u64,
    level: Option<Level>,
    message: Seq<char>,
    timestamp: Option<Seq<char>>,
    names: Map<u64, Seq<char>>,
    can_recover: bool,
)
    ensures
        ({
            let outcome = OutcomeView::Frame { index, level, message, timestamp };
            let known = state.take(outcome, Some(names), can_recover);
            let unknown = state.take(outcome, None, can_recover);
            let frame = FrameView { message, timestamp, level, module: None };
            &&& names.contains_key(index) ==> known.result.frames == state.result.frames.push(
                OutputView::Frame(FrameView { module: Some(names[index]), ..frame }),
            )
            &&& !names.contains_key(index) ==> known.result.frames == state.result.frames.push(
                OutputView::Frame(frame),
            )
            &&& unknown.result.frames == state.result.frames.push(OutputView::Frame(frame))
            &&& known.result == (ResultView { frames: known.result.frames, ..state.result })
            &&& known.done == state.done
            &&& known.iterations == state.iterations + 1
        }),
{
}

/// Data that makes no frame is counted. In an encoding that recovers it is reported,
/// the first eight times, and decoding goes on; from there on it is counted as held
/// back. In another encoding it is reported, decoding ends and a new decoder is asked
/// for.
pub proof fn law_malformed_data_is_reported(
    state: CollectView,
    text: Seq<char>,
    modules: Option<Map<u64, Seq<char>>>,
)
    requires
        state.result.warnings < u64::MAX,
        state.result.suppressed_warnings < u64::MAX,
    ensures
        ({
            let outcome = OutcomeView::Malformed(text);
            let recovered = state.take(outcome, modules, true);
            let lost = state.take(outcome, modules, false);
            &&& recovered.result.warnings == state.result.warnings + 1
            &&& recovered.done == state.done
            &&& recovered.result.restart == state.result.restart
            &&& recovered.iterations == state.iterations + 1
            &&& state.result.warnings < 8 ==> recovered.result.frames == state.result.frames.push(
                OutputView::Warning("defmt decode warning: "@ + text),
            ) && recovered.result.suppressed_warnings == state.result.suppressed_warnings
            &&& state.result.warnings >= 8 ==> recovered.result.frames == state.result.frames
                && recovered.result.suppressed_warnings == state.result.suppressed_warnings + 1
            &&& lost.result.warnings == state.result.warnings + 1
            &&& lost.result.suppressed_warnings == state.result.suppressed_warnings
            &&& lost.result.frames == state.result.frames.push(
                OutputView::Warning("defmt decode warning: "@ + text + "; resetting decoder"@),
            )
            &&& lost.result.restart && lost.done
        }),
{
}

/// Data that ends within a frame ends the decoding and changes nothing of what has
/// come out.
pub proof fn law_unfinished_frames_wait(
    state: CollectView,
    modules: Option<Map<u64, Seq<char>>>,
    can_recover: bool,
)
    ensures
        state.take(OutcomeView::UnexpectedEof, modules, can_recover).done,
        state.take(OutcomeView::UnexpectedEof, modules, can_recover).result == state.result,
{
}

/// Decoding ends at a thousand and twenty-four outputs, and the rest is left for the
/// next time; it ends at four thousand and ninety-six attempts, and a new decoder is
/// asked for. Below both it goes on.
pub proof fn law_limits_end_the_decoding(state: CollectView)
    requires
        !state.done,
        state.result.suppressed_warnings < u64::MAX,
    ensures
        state.result.frames.len() >= 1024 ==> state.limited().done && state.limited().result == (
        ResultView { hit_frame_limit: true, ..state.result }),
        state.result.frames.len() < 1024 && state.iterations >= 4096 ==> state.limited().done
            && state.limited().result.restart && state.limited().result.frames
            == state.result.frames && state.limited().result.suppressed_warnings
            == state.result.suppressed_warnings + 1,
        state.result.frames.len() < 1024 && state.iterations < 4096 ==> state.limited() == state,
{
}

/// The warnings that were held back are reported as one, behind all else; where none
/// was, nothing is added.
pub proof fn law_held_back_warnings_are_summed_up(result: ResultView)
    ensures
        result.suppressed_warnings == 0 ==> result.summed_up() == result,
        result.suppressed_warnings > 0 ==> result.summed_up().frames == result.frames.push(
            OutputView::Warning(
                decimal(result.suppressed_warnings as nat)
                    + " further defmt decode warnings suppressed"@,
            ),
        ),
        result.summed_up() == (ResultView { frames: result.summed_up().frames, ..result }),
{
}

/// The calls of a decoder after a number of further attempts.
pub open spec fn after_attempts(calls: Seq<Option<Seq<u8>>>, attempts: nat) -> Seq<
    Option<Seq<u8>>,
> {
    calls + Seq::new(attempts, |i: int| None)
}

/// An output shows what an attempt found: the frame's text, time stamp and level,
/// and the module that the table gives for it.
pub open spec fn shows_frame(
    output: OutputView,
    outcome: OutcomeView,
    modules: Option<Map<u64, Seq<char>>>,
) -> bool {
    &&& outcome is Frame
    &&& output matches OutputView::Frame(frame)
    &&& frame.message == outcome->Frame_message
    &&& frame.timestamp == outcome->Frame_timestamp
    &&& frame.level == outcome->Frame_level
    &&& match modules {
        Some(names) => if names.contains_key(outcome->Frame_index) {
            frame.module == Some(names[outcome->Frame_index])
        } else {
            frame.module is None
        },
        None => frame.module is None,
    }
}

/// Where a decoder finds fewer frames than the limit and then the end of the data,
/// all of them come out, in order, and nothing else; no new decoder is asked for.
pub proof fn law_all_frames_come_out(
    elf: Seq<u8>,
    calls: Seq<Option<Seq<u8>>>,
    modules: Option<Map<u64, Seq<char>>>,
    can_recover: bool,
    count: nat,
)
    requires
        count < 1024,
        forall|i: int|
            0 <= i < count ==> #[trigger] decode_outcome(
                elf,
                after_attempts(calls, i as nat),
            ) is Frame,
        decode_outcome(elf, after_attempts(calls, count)) is UnexpectedEof,
    ensures
        ({
            let (end, made) = CollectView::start().run(elf, calls, modules, can_recover);
            let result = end.result.summed_up();
            &&& result.frames.len() == count
            &&& forall|i: int|
                0 <= i < count ==> shows_frame(
                    #[trigger] result.frames[i],
                    decode_outcome(elf, after_attempts(calls, i as nat)),
                    modules,
                )
            &&& result.warnings == 0 && !result.restart && !result.hit_frame_limit
            &&& made == after_attempts(calls, count + 1)
        }),
{
    assert(after_attempts(calls, 0) =~= calls);
    lemma_frames_come_out(CollectView::start(), elf, calls, modules, can_recover, 0, count);
}

proof fn lemma_frames_come_out(
    state: CollectView,
    elf: Seq<u8>,
    calls: Seq<Option<Seq<u8>>>,
    modules: Option<Map<u64, Seq<char>>>,
    can_recover: bool,
    done: nat,
    count: nat,
)
    requires
        done <= count < 1024,
        !state.done,
        state.iterations == done,
        state.result.frames.len() == done,
        state.result == (ResultView { frames: state.result.frames, ..ResultView::empty() }),
        forall|i: int|
            0 <= i < done ==> shows_frame(
                #[trigger] state.result.frames[i],
                decode_outcome(elf, after_attempts(calls, i as nat)),
                modules,
            ),
        forall|i: int|
            0 <= i < count ==> #[trigger] decode_outcome(
                elf,
                after_attempts(calls, i as nat),
            ) is Frame,
        decode_outcome(elf, after_attempts(calls, count)) is UnexpectedEof,
    ensures
        ({
            let (end, made) = state.run(elf, after_attempts(calls, done), modules, can_recover);
            let result = end.result;
            &&& result == (ResultView { frames: result.frames, ..ResultView::empty() })
            &&& result.frames.len() == count
            &&& forall|i: int|
                0 <= i < count ==> shows_frame(
                    #[trigger] result.frames[i],
                    decode_outcome(elf, after_attempts(calls, i as nat)),
                    modules,
                )
            &&& made == after_attempts(calls, count + 1)
        }),
    decreases count - done,
{
    reveal_with_fuel(CollectView::run, 2);
    let made = after_attempts(calls, done);
    let outcome = decode_outcome(elf, made);
    let next = state.take(outcome, modules, can_recover);
    assert(made.push(None) =~= after_attempts(calls, done + 1));
    if done < count {
        let place: int = done as int;
        assert(decode_outcome(elf, after_attempts(calls, place as nat)) is Frame);
        lemma_frames_come_out(next, elf, calls, modules, can_recover, done + 1, count);
    }
}

} // verus!
