//! The up channels of a session and what comes out of them.
use crate::cli::{ChannelEncoding, ChannelSpec};
use crate::decode::{
    after_attempts, decode_frames, decode_outcome, decoder_calls, decoder_elf,
    law_all_frames_come_out, law_decoding_is_bounded, outputs_view, shows_frame, CollectView,
    DecodeOutput, Decoder, OutputView, ResultView, MAX_DECODE_BUFFERED_BYTES,
    MAX_DECODE_ITERATIONS,
};
use crate::elf::{encoding_recovers, modules_view, DefmtData};
use crate::output::{frame_line, level_color, warning_line, ContextView, OutputContext};
use crate::render::{law_complete_line_keeps_the_unfinished_one, RenderView, Screen};
use crate::text::{decimal, decimal_string, followed};
use vstd::prelude::*;

verus! {

/// The decoder of a channel.
pub struct DefmtView {
    /// The path of the ELF file.
    pub path: Seq<char>,
    /// The ELF file whose table it works with.
    pub elf: Seq<u8>,
    /// The modules of the messages.
    pub modules: Option<Map<u64, Seq<char>>>,
    /// The calls that it has had.
    pub calls: Seq<Option<Seq<u8>>>,
    /// The bytes that it has been handed.
    pub buffered: int,
}

impl DefmtView {
    /// A new decoder takes its place.
    pub open spec fn replaced(self) -> DefmtView {
        DefmtView { calls: Seq::empty(), buffered: 0, ..self }
    }

    /// More bytes come than a decoder is handed.
    pub open spec fn overflows(self, bytes: Seq<u8>) -> bool {
        bytes.len() > 0 && self.buffered + bytes.len() > MAX_DECODE_BUFFERED_BYTES
    }

    /// The decoder that takes bytes.
    pub open spec fn receiver(self, bytes: Seq<u8>) -> DefmtView {
        if self.overflows(bytes) {
            self.replaced()
        } else {
            self
        }
    }

    /// What the decoding of bytes comes to, and the calls that it takes.
    pub open spec fn run(self, bytes: Seq<u8>) -> (CollectView, Seq<Option<Seq<u8>>>) {
        CollectView::start().run(
            self.elf,
            self.calls.push(Some(bytes)),
            self.modules,
            encoding_recovers(self.elf),
        )
    }

    /// The decoder that takes bytes answers each attempt to decode them.
    pub open spec fn answers(self, bytes: Seq<u8>) -> bool {
        let receiver = self.receiver(bytes);
        CollectView::start().answered(
            receiver.elf,
            receiver.calls.push(Some(bytes)),
            receiver.modules,
            encoding_recovers(receiver.elf),
        )
    }

    /// What comes out of bytes.
    pub open spec fn result(self, bytes: Seq<u8>) -> ResultView {
        self.receiver(bytes).run(bytes).0.result.summed_up()
    }

    /// The decoder after it has been handed bytes.
    pub open spec fn after(self, bytes: Seq<u8>) -> DefmtView {
        let receiver = self.receiver(bytes);
        if self.result(bytes).restart {
            self.replaced()
        } else {
            DefmtView {
                calls: receiver.run(bytes).1,
                buffered: receiver.buffered + bytes.len(),
                ..self
            }
        }
    }

    /// Screen and log after the decoder has been handed bytes.
    pub open spec fn shown(
        self,
        context: ContextView,
        channel: u32,
        bytes: Seq<u8>,
        wall: i64,
    ) -> ContextView {
        let warned = if self.overflows(bytes) {
            context.defmt_warning(
                channel,
                "defmt decoder input exceeded 64 KiB; resetting decoder"@,
                wall,
            )
        } else {
            context
        };
        warned.defmt_outputs(channel, self.result(bytes).frames, wall)
    }
}

/// An up channel.
pub struct ReaderView {
    pub spec: ChannelSpec,
    pub channel_number: usize,
    /// The decoder of a defmt channel.
    pub defmt: Option<DefmtView>,
}

/// An up channel as it is when the session starts.
pub open spec fn fresh_reader(spec: ChannelSpec, defmt: Option<&DefmtData>) -> ReaderView {
    ReaderView {
        spec,
        channel_number: spec.index as usize,
        defmt: match (spec.mode, defmt) {
            (ChannelEncoding::Defmt, Some(data)) => Some(
                DefmtView {
                    path: data.path@,
                    elf: data.elf(),
                    modules: modules_view(data.modules),
                    calls: Seq::empty(),
                    buffered: 0,
                },
            ),
            _ => None,
        },
    }
}

/// An up channel that is read.
pub struct UpChannelReader<'t> {
    pub spec: ChannelSpec,
    pub channel_number: usize,
    pub decoder: Option<(Decoder<'t>, &'t DefmtData)>,
    pub defmt_buffered_bytes: usize,
}

impl<'t> View for UpChannelReader<'t> {
    type V = ReaderView;

    open spec fn view(&self) -> ReaderView {
        ReaderView {
            spec: self.spec,
            channel_number: self.channel_number,
            defmt: match self.decoder {
                Some((decoder, data)) => Some(
                    DefmtView {
                        path: data.path@,
                        elf: decoder_elf(decoder),
                        modules: modules_view(data.modules),
                        calls: decoder_calls(decoder),
                        buffered: self.defmt_buffered_bytes as int,
                    },
                ),
                None => None,
            },
        }
    }
}

/// The most warnings that one call of a decoder can lead to.
pub const MAX_WARNINGS_AT_ONCE: u64 = 1026;

impl<'t> UpChannelReader<'t> {
    /// A defmt channel has a decoder for its table, and no other channel has one.
    pub open spec fn wf(self) -> bool {
        &&& (self.spec.mode == ChannelEncoding::Defmt) == (self.decoder is Some)
        &&& self.decoder matches Some((decoder, data)) ==> decoder_elf(decoder) == data.elf()
    }

    /// Opens an up channel. A defmt channel needs a table.
    pub fn new(spec: ChannelSpec, defmt: Option<&'t DefmtData>) -> (result: Result<Self, String>)
        ensures
            match result {
                Ok(reader) => (spec.mode == ChannelEncoding::Defmt ==> defmt is Some) && reader.wf()
                    && reader@ == fresh_reader(spec, defmt),
                Err(message) => spec.mode == ChannelEncoding::Defmt && defmt is None && message@
                    == "missing defmt table for channel "@ + decimal(spec.index as nat),
            },
    {
        let decoder = match spec.mode {
            ChannelEncoding::Defmt => match defmt {
                Some(data) => Some((data.new_decoder(), data)),
                None => {
                    let number = decimal_string(spec.index as u64);
                    return Err(followed("missing defmt table for channel ", number.as_str()));
                },
            },
            ChannelEncoding::Terminal => None,
        };
        Ok(
            UpChannelReader {
                spec,
                channel_number: spec.index as usize,
                decoder,
                defmt_buffered_bytes: 0,
            },
        )
    }

    /// Starts the channel anew, with its table.
    pub fn restart(&mut self)
        requires
            old(self).wf(),
        ensures
            final(self).wf(),
            final(self)@ == (ReaderView {
                defmt: match old(self)@.defmt {
                    Some(defmt) => Some(defmt.replaced()),
                    None => None,
                },
                ..old(self)@
            }),
    {
        self.replace_decoder();
    }

    fn replace_decoder(&mut self)
        requires
            old(self).wf(),
        ensures
            final(self).wf(),
            final(self)@ == (ReaderView {
                defmt: match old(self)@.defmt {
                    Some(defmt) => Some(defmt.replaced()),
                    None => None,
                },
                ..old(self)@
            }),
            final(self).decoder is Some == old(self).decoder is Some,
    {
        let data = match &self.decoder {
            Some((_, data)) => Some(*data),
            None => None,
        };
        if let Some(data) = data {
            self.decoder = Some((data.new_decoder(), data));
            self.defmt_buffered_bytes = 0;
        }
    }

    /// Hands bytes of a defmt channel to its decoder, and shows and logs what comes
    /// out. Tells whether frames may be left for the next time.
    ///
    /// All input since the decoder was made is counted, because what it holds back
    /// cannot be seen: a decoder that has had its share is replaced.
    pub fn process_defmt(&mut self, bytes: &[u8], wall: i64, render: &mut OutputContext<'_>) -> (limit:
        bool)
        requires
            old(self).wf(),
            old(self).decoder is Some,
            old(self)@.defmt->0.answers(bytes@),
            old(render).wf(),
            old(render).state.defmt_decode_warnings + MAX_WARNINGS_AT_ONCE <= u64::MAX,
        ensures
            final(self).wf(),
            final(render).wf(),
            ({
                let defmt = old(self)@.defmt->0;
                &&& final(self)@ == (ReaderView { defmt: Some(defmt.after(bytes@)), ..old(self)@ })
                &&& final(render)@ == defmt.shown(old(render)@, old(self).spec.index, bytes@, wall)
                &&& limit == defmt.result(bytes@).hit_frame_limit
            }),
    {
        let channel = self.spec.index;
        let ghost before = self@.defmt->0;
        let ghost start = render@;
        if bytes.len() > 0 && (self.defmt_buffered_bytes > MAX_DECODE_BUFFERED_BYTES || bytes.len()
            > MAX_DECODE_BUFFERED_BYTES - self.defmt_buffered_bytes) {
            self.replace_decoder();
            proof {
                lemma_warning_is_counted(
                    start,
                    channel,
                    "defmt decoder input exceeded 64 KiB; resetting decoder"@,
                    wall,
                );
            }
            render.render_defmt_warning(
                channel,
                "defmt decoder input exceeded 64 KiB; resetting decoder",
                wall,
            );
        }
        let ghost receiver = before.receiver(bytes@);
        assert(self@.defmt == Some(receiver));
        let ghost warned = render@;
        let decoded = match &mut self.decoder {
            Some((decoder, data)) => {
                let can_recover = data.can_recover();
                decode_frames(decoder, bytes, &data.modules, can_recover)
            },
            None => {
                return false;
            },
        };
        assert(decoded@ == before.result(bytes@));
        proof {
            law_decoding_is_bounded(
                receiver.elf,
                receiver.calls.push(Some(bytes@)),
                receiver.modules,
                encoding_recovers(receiver.elf),
            );
        }
        let limit = decoded.hit_frame_limit;
        let restart = decoded.restart;
        show_outputs(channel, &decoded.frames, wall, render);
        if restart {
            self.replace_decoder();
        } else {
            self.defmt_buffered_bytes = self.defmt_buffered_bytes + bytes.len();
        }
        limit
    }
}

/// The warnings that have been counted.
pub open spec fn counted(context: ContextView) -> int {
    context.screen.state.defmt_decode_warnings as int
}

proof fn lemma_warning_is_counted(context: ContextView, channel: u32, warning: Seq<char>, wall: i64)
    requires
        counted(context) < u64::MAX,
    ensures
        counted(context.defmt_warning(channel, warning, wall)) == counted(context) + 1,
{
    let number = (context.screen.state.defmt_decode_warnings + 1) as u64;
    let screen = Screen {
        state: RenderView { defmt_decode_warnings: number, ..context.screen.state },
        ..context.screen
    };
    law_complete_line_keeps_the_unfinished_one(
        screen,
        channel,
        warning_line(number, warning),
        wall,
        None,
    );
}

proof fn lemma_output_is_counted(context: ContextView, channel: u32, output: OutputView, wall: i64)
    requires
        counted(context) < u64::MAX,
    ensures
        counted(context) <= counted(context.defmt_output(channel, output, wall)) <= counted(context)
            + 1,
{
    match output {
        OutputView::Frame(frame) => {
            let color = if context.screen.state.color {
                level_color(frame.level)
            } else {
                None
            };
            law_complete_line_keeps_the_unfinished_one(
                context.screen,
                channel,
                frame_line(frame),
                wall,
                color,
            );
        },
        OutputView::Warning(warning) => {
            lemma_warning_is_counted(context, channel, warning, wall);
        },
    }
}

/// Shows and logs what a decoder hands out.
fn show_outputs(channel: u32, outputs: &Vec<DecodeOutput>, wall: i64, render: &mut OutputContext<'_>)
    requires
        old(render).wf(),
        old(render).state.defmt_decode_warnings + outputs@.len() <= u64::MAX,
    ensures
        final(render).wf(),
        final(render)@ == old(render)@.defmt_outputs(channel, outputs_view(outputs@), wall),
{
    let ghost start = render@;
    let ghost all = outputs_view(outputs@);
    let mut index: usize = 0;
    assert(all.take(0) =~= Seq::<OutputView>::empty());
    while index < outputs.len()
        invariant
            index <= outputs@.len(),
            all == outputs_view(outputs@),
            render.wf(),
            render@ == start.defmt_outputs(channel, all.take(index as int), wall),
            counted(start) + outputs@.len() <= u64::MAX,
            counted(start) <= counted(render@) <= counted(start) + index,
        decreases outputs@.len() - index,
    {
        assert(all.take(index + 1).drop_last() =~= all.take(index as int));
        assert(all.take(index + 1).last() == outputs@[index as int]@);
        proof {
            lemma_output_is_counted(render@, channel, all[index as int], wall);
        }
        match &outputs[index] {
            DecodeOutput::Frame(frame) => render.render_defmt_frame(channel, frame, wall),
            DecodeOutput::Warning(warning) => render.render_defmt_warning(
                channel,
                warning.as_str(),
                wall,
            ),
        }
        index += 1;
    }
    assert(all.take(all.len() as int) =~= all);
}

/// A decoder that would be handed more than sixty-four kibibytes is replaced by a new
/// one for the same table, and a warning is shown before what comes out of the bytes;
/// any other takes the bytes itself, and nothing is shown before.
pub proof fn law_full_decoders_are_replaced(
    defmt: DefmtView,
    context: ContextView,
    channel: u32,
    bytes: Seq<u8>,
    wall: i64,
)
    ensures
        ({
            let outputs = defmt.result(bytes).frames;
            let shown = defmt.shown(context, channel, bytes, wall);
            if bytes.len() > 0 && defmt.buffered + bytes.len() > 65536 {
                &&& defmt.receiver(bytes) == (DefmtView { calls: Seq::empty(), buffered: 0, ..defmt })
                &&& shown == context.defmt_warning(
                    channel,
                    "defmt decoder input exceeded 64 KiB; resetting decoder"@,
                    wall,
                ).defmt_outputs(channel, outputs, wall)
            } else {
                &&& defmt.receiver(bytes) == defmt
                &&& shown == context.defmt_outputs(channel, outputs, wall)
            }
        }),
{
}

/// A decoder goes on with what it has been handed: its calls go on from those before,
/// with the bytes as the next of them, and the bytes are counted. Where a new decoder
/// is asked for, one for the same table takes its place, with nothing counted.
pub proof fn law_decoders_go_on(defmt: DefmtView, bytes: Seq<u8>)
    requires
        bytes.len() == 0 || defmt.buffered + bytes.len() <= 65536,
    ensures
        ({
            let after = defmt.after(bytes);
            &&& after.path == defmt.path && after.elf == defmt.elf && after.modules == defmt.modules
            &&& defmt.result(bytes).restart ==> after.calls.len() == 0 && after.buffered == 0
            &&& !defmt.result(bytes).restart ==> {
                &&& after.buffered == defmt.buffered + bytes.len()
                &&& defmt.calls.push(Some(bytes)).is_prefix_of(after.calls)
            }
        }),
{
    lemma_calls_are_kept(
        CollectView::start(),
        defmt.elf,
        defmt.calls.push(Some(bytes)),
        defmt.modules,
        encoding_recovers(defmt.elf),
    );
}

proof fn lemma_calls_are_kept(
    state: CollectView,
    elf: Seq<u8>,
    calls: Seq<Option<Seq<u8>>>,
    modules: Option<Map<u64, Seq<char>>>,
    can_recover: bool,
)
    ensures
        calls.is_prefix_of(state.run(elf, calls, modules, can_recover).1),
    decreases MAX_DECODE_ITERATIONS - state.iterations,
{
    if !state.done && !state.limited().done && state.iterations < MAX_DECODE_ITERATIONS {
        let next = state.take(decode_outcome(elf, calls), modules, can_recover);
        lemma_calls_are_kept(next, elf, calls.push(None), modules, can_recover);
        let made = next.run(elf, calls.push(None), modules, can_recover).1;
        assert(calls.push(None).is_prefix_of(made));
        assert forall|i: int| 0 <= i < calls.len() implies calls[i] == made[i] by {
            assert(calls.push(None)[i] == made[i]);
        }
    }
}

/// What a channel says is shown whole: where its decoder finds fewer frames than the
/// limit in the bytes and then their end, each of them is handed to screen and log,
/// and the decoder waits for more.
pub proof fn law_decoded_frames_are_shown(
    defmt: DefmtView,
    context: ContextView,
    channel: u32,
    bytes: Seq<u8>,
    wall: i64,
    count: nat,
)
    requires
        bytes.len() == 0 || defmt.buffered + bytes.len() <= 65536,
        count < 1024,
        forall|i: int|
            0 <= i < count ==> #[trigger] decode_outcome(
                defmt.elf,
                after_attempts(defmt.calls.push(Some(bytes)), i as nat),
            ) is Frame,
        decode_outcome(
            defmt.elf,
            after_attempts(defmt.calls.push(Some(bytes)), count),
        ) is UnexpectedEof,
    ensures
        ({
            let outputs = defmt.result(bytes).frames;
            &&& defmt.shown(context, channel, bytes, wall) == context.defmt_outputs(
                channel,
                outputs,
                wall,
            )
            &&& outputs.len() == count
            &&& forall|i: int|
                0 <= i < count ==> shows_frame(
                    #[trigger] outputs[i],
                    decode_outcome(
                        defmt.elf,
                        after_attempts(defmt.calls.push(Some(bytes)), i as nat),
                    ),
                    defmt.modules,
                )
            &&& !defmt.result(bytes).hit_frame_limit
            &&& defmt.after(bytes).calls == after_attempts(
                defmt.calls.push(Some(bytes)),
                count + 1,
            )
        }),
{
    law_all_frames_come_out(
        defmt.elf,
        defmt.calls.push(Some(bytes)),
        defmt.modules,
        encoding_recovers(defmt.elf),
        count,
    );
}

/// A channel starts with nothing handed to its decoder. One that carries messages has
/// a decoder for the table that is there; one that carries terminal output has none.
pub proof fn law_channels_start_afresh(spec: ChannelSpec, data: &DefmtData)
    ensures
        fresh_reader(spec, Some(data)).spec == spec,
        fresh_reader(spec, Some(data)).channel_number == spec.index,
        spec.mode == ChannelEncoding::Terminal ==> fresh_reader(spec, Some(data)).defmt is None,
        spec.mode == ChannelEncoding::Defmt ==> (fresh_reader(spec, Some(data)).defmt matches Some(
            defmt,
        ) && defmt.elf == data.elf() && defmt.path == data.path@ && defmt.modules == modules_view(
            data.modules,
        ) && defmt.calls.len() == 0 && defmt.buffered == 0),
{
}

} // verus!
