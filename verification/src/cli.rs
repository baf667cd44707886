//! What the command line asks for.
use crate::filter::{filters_view, FilterSpec, FilterView};
use crate::parse::{
    is_text, law_decimal_digits_are_read_back, law_hexadecimal_digits_are_read_back,
    law_pieces_stand_between_separators, law_trimming, number, number_error, parse_u32, parse_u64,
    parse_usize, pieces, pieces_view, same_chars, slice_of, split, trim, trimmed,
};
use crate::scan::{RegionView, ScanRegion};
use crate::text::{
    between, decimal, decimal_string, followed, from_chars, hex, hex_string, is_white_space,
    law_ascii_white_space, to_chars,
};
use std::str::FromStr;
use vstd::prelude::*;

verus! {

/// `PathBuf` of the standard library: a path, carried through unread.
#[verifier::external_type_specification]
#[verifier::external_body]
pub struct ExPathBuf(std::path::PathBuf);

/// Describes `PathBuf::clone` of the standard library: it copies the path.
pub assume_specification[ <std::path::PathBuf as Clone>::clone ](path: &std::path::PathBuf) -> (copy:
    std::path::PathBuf)
    ensures
        copy == *path,
;

/// Which probe is meant.
#[derive(Debug, PartialEq, Eq, Clone, Copy, Structural)]
pub enum ProbeInfo {
    Number(usize),
    List,
}

/// The probe that a text means.
pub open spec fn probe_info(text: Seq<char>) -> Option<ProbeInfo> {
    if text == "list"@ {
        Some(ProbeInfo::List)
    } else {
        match number(text, 10) {
            Some(value) => if value <= usize::MAX {
                Some(ProbeInfo::Number(value as usize))
            } else {
                None
            },
            None => None,
        }
    }
}

impl FromStr for ProbeInfo {
    type Err = &'static str;

    /// Reads which probe is meant: `list` or a number.
    fn from_str(s: &str) -> (result: Result<ProbeInfo, &'static str>)
        ensures
            match result {
                Ok(probe) => probe_info(s@) == Some(probe),
                Err(message) => probe_info(s@) is None && message@ == "Invalid probe number."@,
            },
    {
        let chars = to_chars(s);
        if is_text(&chars, "list") {
            Ok(ProbeInfo::List)
        } else {
            match parse_usize(&chars) {
                Some(number) => Ok(ProbeInfo::Number(number)),
                None => Err("Invalid probe number."),
            }
        }
    }
}

/// How a channel's bytes are read.
#[derive(Debug, PartialEq, Eq, Clone, Copy, Structural)]
pub enum ChannelEncoding {
    Terminal,
    Defmt,
}

/// The name of an encoding.
pub open spec fn encoding_name(encoding: ChannelEncoding) -> Seq<char> {
    match encoding {
        ChannelEncoding::Terminal => "terminal"@,
        ChannelEncoding::Defmt => "defmt"@,
    }
}

/// The encoding that a text names, or what is said of a text that names none.
pub open spec fn named_encoding(text: Seq<char>) -> Result<ChannelEncoding, Seq<char>> {
    if text == "terminal"@ {
        Ok(ChannelEncoding::Terminal)
    } else if text == "defmt"@ {
        Ok(ChannelEncoding::Defmt)
    } else {
        Err("invalid channel mode '"@ + text + "', expected terminal or defmt"@)
    }
}

impl ChannelEncoding {
    /// The name of the encoding.
    pub fn name(self) -> (name: &'static str)
        ensures
            name@ == encoding_name(self),
    {
        match self {
            ChannelEncoding::Terminal => "terminal",
            ChannelEncoding::Defmt => "defmt",
        }
    }
}

impl FromStr for ChannelEncoding {
    type Err = String;

    /// Reads the name of an encoding.
    fn from_str(value: &str) -> (result: Result<Self, String>)
        ensures
            match result {
                Ok(encoding) => named_encoding(value@) == Ok::<ChannelEncoding, Seq<char>>(encoding),
                Err(message) => named_encoding(value@) == Err::<ChannelEncoding, Seq<char>>(
                    message@,
                ),
            },
    {
        let chars = to_chars(value);
        if is_text(&chars, "terminal") {
            Ok(ChannelEncoding::Terminal)
        } else if is_text(&chars, "defmt") {
            Ok(ChannelEncoding::Defmt)
        } else {
            Err(between("invalid channel mode '", value, "', expected terminal or defmt"))
        }
    }
}

/// An up channel and how its bytes are read.
#[derive(Debug, PartialEq, Eq, Clone, Copy, Structural)]
pub struct ChannelSpec {
    pub index: u32,
    pub mode: ChannelEncoding,
}

/// The channel that a text `INDEX[:MODE]` means, or what is said of another text.
pub open spec fn channel_spec(text: Seq<char>) -> Result<ChannelSpec, Seq<char>> {
    let parts = pieces(text, ':');
    let mode = if parts.len() > 1 {
        parts[1]
    } else {
        "terminal"@
    };
    if parts.len() > 2 {
        Err("invalid channel specification '"@ + text + "', expected INDEX[:MODE]"@)
    } else if parts[0].len() == 0 {
        Err("channel index cannot be empty"@)
    } else {
        match number(parts[0], 10) {
            Some(value) => if value <= u32::MAX {
                match named_encoding(mode) {
                    Ok(mode) => Ok(ChannelSpec { index: value as u32, mode }),
                    Err(message) => Err(message),
                }
            } else {
                Err("invalid channel index '"@ + parts[0] + "', expected a u32"@)
            },
            None => Err("invalid channel index '"@ + parts[0] + "', expected a u32"@),
        }
    }
}

impl FromStr for ChannelSpec {
    type Err = String;

    /// Reads a channel specification.
    fn from_str(value: &str) -> (result: Result<Self, String>)
        ensures
            match result {
                Ok(spec) => channel_spec(value@) == Ok::<ChannelSpec, Seq<char>>(spec),
                Err(message) => channel_spec(value@) == Err::<ChannelSpec, Seq<char>>(message@),
            },
    {
        let chars = to_chars(value);
        let parts = split(&chars, ':');
        let ghost all = pieces(value@, ':');
        assert(all[0] == parts@[0]@);
        assert(parts@.len() > 1 ==> all[1] == parts@[1]@);
        if parts.len() > 2 {
            return Err(
                between("invalid channel specification '", value, "', expected INDEX[:MODE]"),
            );
        }
        if parts[0].len() == 0 {
            return Err("channel index cannot be empty".to_owned());
        }
        let index = match parse_u32(&parts[0]) {
            Some(index) => index,
            None => {
                let text = from_chars(&parts[0]);
                return Err(between("invalid channel index '", text.as_str(), "', expected a u32"));
            },
        };
        let mode = if parts.len() > 1 {
            let text = from_chars(&parts[1]);
            ChannelEncoding::from_str(text.as_str())
        } else {
            ChannelEncoding::from_str("terminal")
        };
        match mode {
            Ok(mode) => Ok(ChannelSpec { index, mode }),
            Err(message) => Err(message),
        }
    }
}

/// When colours are used.
#[derive(Debug, Clone, Copy, PartialEq, Eq, Structural)]
pub enum ColorMode {
    Auto,
    Always,
    Never,
}

/// What a log holds.
#[derive(Debug, Clone, Copy, PartialEq, Eq, Structural)]
pub enum LogFormat {
    Raw,
    Decoded,
}

/// The first place from `from` on where two dots stand.
pub open spec fn first_dots(text: Seq<char>, from: int) -> Option<int>
    decreases text.len() - from,
{
    if from + 1 >= text.len() {
        None
    } else if text[from] == '.' && text[from + 1] == '.' {
        Some(from)
    } else {
        first_dots(text, from + 1)
    }
}

/// The pieces of a text between pairs of dots, which are taken from the left.
pub open spec fn dot_pieces(text: Seq<char>) -> Seq<Seq<char>>
    decreases text.len(),
{
    match first_dots(text, 0) {
        Some(place) => if 0 <= place && place + 2 <= text.len() {
            seq![text.take(place)] + dot_pieces(text.skip(place + 2))
        } else {
            seq![text]
        },
        None => seq![text],
    }
}

fn find_dots(text: &[char], start: usize) -> (place: Option<usize>)
    requires
        start <= text@.len(),
    ensures
        match place {
            Some(place) => first_dots(text@.skip(start as int), 0) == Some(place - start) && start
                <= place && place + 2 <= text@.len(),
            None => first_dots(text@.skip(start as int), 0) is None,
        },
{
    let ghost rest = text@.skip(start as int);
    let mut index = start;
    while index < text.len() && text.len() - index >= 2
        invariant
            start <= index <= text@.len(),
            rest == text@.skip(start as int),
            first_dots(rest, 0) == first_dots(rest, index - start),
        decreases text@.len() - index,
    {
        if text[index] == '.' && text[index + 1] == '.' {
            return Some(index);
        }
        index += 1;
    }
    None
}

fn split_dots(text: &[char]) -> (result: Vec<Vec<char>>)
    ensures
        pieces_view(result@) == dot_pieces(text@),
        result@.len() > 0,
{
    let mut result: Vec<Vec<char>> = Vec::new();
    let mut start: usize = 0;
    assert(text@.skip(0) =~= text@);
    assert(pieces_view(result@) + dot_pieces(text@.skip(0)) =~= dot_pieces(text@));
    loop
        invariant_except_break
            start <= text@.len(),
            pieces_view(result@) + dot_pieces(text@.skip(start as int)) == dot_pieces(text@),
        ensures
            pieces_view(result@) == dot_pieces(text@),
            result@.len() > 0,
        decreases text@.len() - start,
    {
        let ghost before = pieces_view(result@);
        let ghost rest = text@.skip(start as int);
        let length = text.len();
        match find_dots(text, start) {
            Some(place) => {
                let piece = slice_of(text, start, place);
                assert(piece@ =~= rest.take(place - start));
                assert(rest.skip(place - start + 2) =~= text@.skip(place + 2));
                let ghost new = piece@;
                result.push(piece);
                assert(pieces_view(result@) =~= before + seq![new]);
                assert(pieces_view(result@) + dot_pieces(text@.skip(place + 2)) =~= before + (seq![
                    new,
                ] + dot_pieces(text@.skip(place + 2))));
                start = place + 2;
            },
            None => {
                let piece = slice_of(text, start, length);
                assert(piece@ =~= rest);
                let ghost new = piece@;
                result.push(piece);
                assert(pieces_view(result@) =~= before + seq![new]);
                break ;
            },
        }
    }
    result
}

/// The address that a text spells, hexadecimal behind `0x`, else decimal, or what
/// is said of another text.
pub open spec fn address(text: Seq<char>) -> Result<u64, Seq<char>> {
    let hexadecimal = text.len() >= 2 && text[0] == '0' && (text[1] == 'x' || text[1] == 'X');
    let digits = if hexadecimal {
        text.skip(2)
    } else {
        text
    };
    let radix: u32 = if hexadecimal {
        16
    } else {
        10
    };
    match number(digits, radix as int) {
        Some(value) => if value <= u64::MAX {
            Ok(value as u64)
        } else {
            Err(number_error(digits, radix))
        },
        None => Err(number_error(digits, radix)),
    }
}

fn parse_address(text: &[char]) -> (result: Result<u64, String>)
    ensures
        match result {
            Ok(value) => address(text@) == Ok::<u64, Seq<char>>(value),
            Err(message) => address(text@) == Err::<u64, Seq<char>>(message@),
        },
{
    if text.len() >= 2 && text[0] == '0' && (text[1] == 'x' || text[1] == 'X') {
        let digits = slice_of(text, 2, text.len());
        assert(digits@ =~= text@.skip(2));
        parse_u64(&digits, 16)
    } else {
        parse_u64(text, 10)
    }
}

/// The addresses that texts spell, up to the first that spells none.
pub open spec fn addresses(texts: Seq<Seq<char>>) -> Result<Seq<u64>, Seq<char>>
    decreases texts.len(),
{
    if texts.len() == 0 {
        Ok(Seq::empty())
    } else {
        match addresses(texts.drop_last()) {
            Ok(before) => match address(texts.last()) {
                Ok(value) => Ok(before.push(value)),
                Err(message) => Err(message),
            },
            Err(message) => Err(message),
        }
    }
}

proof fn lemma_address_error_stays(texts: Seq<Seq<char>>, count: int)
    requires
        0 <= count <= texts.len(),
        addresses(texts.take(count)) is Err,
    ensures
        addresses(texts) == addresses(texts.take(count)),
    decreases texts.len(),
{
    if count < texts.len() {
        assert(texts.drop_last().take(count) =~= texts.take(count));
        lemma_address_error_stays(texts.drop_last(), count);
    } else {
        assert(texts.take(count) =~= texts);
    }
}

/// What is said of a range that does not go up.
pub open spec fn range_error(text: Seq<char>, start: u64, end: u64) -> Seq<char> {
    "invalid scan range '"@ + text + "': start 0x"@ + hex(start as nat)
        + " must be less than end 0x"@ + hex(end as nat)
}

/// The region that a text means: all RAM, an address, or a range `START..END`.
pub open spec fn scan_region(text: Seq<char>) -> Result<RegionView, Seq<char>> {
    let text = trimmed(text);
    if text.len() == 0 {
        Ok(RegionView::Ram)
    } else {
        match addresses(dot_pieces(text)) {
            Ok(parts) => if parts.len() == 1 {
                Ok(RegionView::Exact(parts[0]))
            } else if parts.len() == 2 {
                if parts[0] < parts[1] {
                    Ok(RegionView::Ranges(seq![(parts[0], parts[1])]))
                } else {
                    Err(range_error(text, parts[0], parts[1]))
                }
            } else {
                Err("Invalid range: multiple '..'s"@)
            },
            Err(message) => Err(message),
        }
    }
}

/// Reads a memory region.
pub fn parse_scan_region(src: &str) -> (result: Result<ScanRegion, String>)
    ensures
        match result {
            Ok(region) => scan_region(src@) == Ok::<RegionView, Seq<char>>(region@),
            Err(message) => scan_region(src@) == Err::<RegionView, Seq<char>>(message@),
        },
{
    let text = trim(&to_chars(src));
    if text.len() == 0 {
        return Ok(ScanRegion::Ram);
    }
    let texts = split_dots(&text);
    let ghost all = pieces_view(texts@);
    let mut parts: Vec<u64> = Vec::new();
    let mut index: usize = 0;
    assert(all.take(0) =~= Seq::<Seq<char>>::empty());
    while index < texts.len()
        invariant
            index <= texts@.len(),
            parts@.len() == index,
            text@ == trimmed(src@),
            text@.len() > 0,
            all == pieces_view(texts@),
            all == dot_pieces(text@),
            addresses(all.take(index as int)) == Ok::<Seq<u64>, Seq<char>>(parts@),
        decreases texts@.len() - index,
    {
        assert(all.take(index + 1).drop_last() =~= all.take(index as int));
        assert(all.take(index + 1).last() == texts@[index as int]@);
        match parse_address(&texts[index]) {
            Ok(value) => parts.push(value),
            Err(message) => {
                proof {
                    lemma_address_error_stays(all, index + 1);
                }
                return Err(message);
            },
        }
        index += 1;
    }
    assert(all.take(all.len() as int) =~= all);
    if parts.len() == 1 {
        Ok(ScanRegion::Exact(parts[0]))
    } else if parts.len() == 2 {
        if parts[0] < parts[1] {
            let mut ranges: Vec<(u64, u64)> = Vec::new();
            ranges.push((parts[0], parts[1]));
            assert(ranges@ =~= seq![(parts@[0], parts@[1])]);
            Ok(ScanRegion::Ranges(ranges))
        } else {
            let quoted = from_chars(&text);
            let start = hex_string(parts[0]);
            let finish = hex_string(parts[1]);
            let front = between("invalid scan range '", quoted.as_str(), "': start 0x");
            let middle = between(front.as_str(), start.as_str(), " must be less than end 0x");
            Err(followed(middle.as_str(), finish.as_str()))
        }
    } else {
        Err("Invalid range: multiple '..'s".to_owned())
    }
}

/// The options of the program.
pub struct Opts {
    pub probe: Option<ProbeInfo>,
    pub chip: Option<String>,
    pub list: bool,
    pub up: Vec<ChannelSpec>,
    pub down: Option<u32>,
    pub reset: bool,
    pub timestamps: bool,
    pub poll_interval: u64,
    pub scan_region: Option<ScanRegion>,
    pub elf: Option<std::path::PathBuf>,
    pub debug_defmt_table: bool,
    pub defmt_filters: Option<FilterSpec>,
    pub color: ColorMode,
    pub log: Option<std::path::PathBuf>,
    pub log_per_channel: bool,
    pub log_format: Option<LogFormat>,
    pub no_down: bool,
}

/// A defmt channel is among the up channels.
pub open spec fn has_defmt(up_specs: Seq<ChannelSpec>) -> bool {
    exists|i: int|
        0 <= i < up_specs.len() && (#[trigger] up_specs[i]).mode == ChannelEncoding::Defmt
}

/// The first place, among the first `count`, that holds what an earlier one holds.
pub open spec fn first_repeat<T>(items: Seq<T>, count: int) -> Option<int>
    decreases count,
{
    if count <= 0 {
        None
    } else {
        match first_repeat(items, count - 1) {
            Some(place) => Some(place),
            None => if items.take(count - 1).contains(items[count - 1]) {
                Some(count - 1)
            } else {
                None
            },
        }
    }
}

/// Where no place repeats an earlier one, all are different.
pub proof fn lemma_no_repeat<T>(items: Seq<T>, count: int)
    requires
        0 <= count <= items.len(),
        first_repeat(items, count) is None,
    ensures
        items.take(count).no_duplicates(),
    decreases count,
{
    if count > 0 {
        lemma_no_repeat(items, count - 1);
        let shorter = items.take(count - 1);
        assert forall|i: int, j: int| 0 <= i < j < count implies items.take(count)[i] != items.take(
            count,
        )[j] by {
            if j < count - 1 {
                assert(shorter[i] != shorter[j]);
            } else {
                assert(shorter[i] == items[i]);
                assert(shorter.contains(items[i]));
            }
        }
    }
}

proof fn lemma_repeat_stays<T>(items: Seq<T>, count: int, longer: int)
    requires
        count <= longer,
        first_repeat(items, count) is Some,
    ensures
        first_repeat(items, longer) == first_repeat(items, count),
    decreases longer - count,
{
    if count < longer {
        lemma_repeat_stays(items, count, longer - 1);
    }
}

/// The numbers of channels.
pub open spec fn channel_numbers(up_specs: Seq<ChannelSpec>) -> Seq<u32> {
    up_specs.map_values(|spec: ChannelSpec| spec.index)
}

/// The module names of filters.
pub open spec fn filter_modules(filters: Seq<FilterView>) -> Seq<Seq<char>> {
    filters.map_values(|filter: FilterView| filter.module)
}

/// What is wrong with the channels.
pub open spec fn channel_problem(up_specs: Seq<ChannelSpec>) -> Option<Seq<char>> {
    let numbers = channel_numbers(up_specs);
    match first_repeat(numbers, numbers.len() as int) {
        Some(place) => Some(
            "up channel "@ + decimal(numbers[place] as nat) + " was specified more than once"@,
        ),
        None => None,
    }
}

impl Opts {
    /// What is wrong with the options on defmt.
    pub open spec fn defmt_problem(self, up_specs: Seq<ChannelSpec>) -> Option<Seq<char>> {
        if self.defmt_filters is Some && !has_defmt(up_specs) {
            Some("--defmt-filter requires at least one up channel using :defmt"@)
        } else if has_defmt(up_specs) && self.elf is None {
            Some("--elf is required when using an up channel with :defmt"@)
        } else if self.debug_defmt_table && self.elf is None {
            Some("--debug-defmt-table requires --elf"@)
        } else {
            None
        }
    }

    /// What is wrong with the options on the log.
    pub open spec fn logging_problem(self, up_specs: Seq<ChannelSpec>) -> Option<Seq<char>> {
        if self.log is None && self.log_per_channel {
            Some("--log-per-channel requires --log"@)
        } else if self.log is None && self.log_format is Some {
            Some("--log-format requires --log"@)
        } else if self.log is Some && self.log_format == Some(LogFormat::Raw)
            && !self.log_per_channel && up_specs.len() > 1 {
            Some("--log-format raw with multiple up channels requires --log-per-channel"@)
        } else {
            None
        }
    }

    /// An option is given that only a session heeds.
    pub open spec fn session_options(self) -> bool {
        self.up@.len() > 0 || self.down is Some || self.no_down || self.reset || self.timestamps
            || self.log is Some || self.log_per_channel || self.log_format is Some
            || self.defmt_filters is Some || self.poll_interval != 10
    }

    /// What is wrong with what the program is asked to do.
    pub open spec fn mode_problem(self) -> Option<Seq<char>> {
        let lists_probes = self.probe == Some(ProbeInfo::List);
        let session = self.session_options() || self.color != ColorMode::Auto;
        if self.debug_defmt_table && (self.list || lists_probes) {
            Some("--debug-defmt-table cannot be combined with --list or --probe list"@)
        } else if self.debug_defmt_table && session {
            Some("--debug-defmt-table cannot be combined with session options"@)
        } else if self.list && lists_probes {
            Some("--list cannot be combined with --probe list"@)
        } else if self.list && session {
            Some("--list cannot be combined with session options"@)
        } else if lists_probes && session {
            Some("--probe list cannot be combined with session options"@)
        } else {
            None
        }
    }

    /// What is wrong with the filter.
    pub open spec fn filter_problem(self) -> Option<Seq<char>> {
        match self.defmt_filters {
            Some(spec) => {
                let modules = filter_modules(filters_view(spec.0@));
                match first_repeat(modules, modules.len() as int) {
                    Some(place) => Some(
                        "defmt filter prefix '"@ + modules[place]
                            + "' was specified more than once"@,
                    ),
                    None => None,
                }
            },
            None => None,
        }
    }

    /// What is wrong with the options, the first thing in this order: channels,
    /// defmt, log, what is to be done, filter.
    pub open spec fn problem(self, up_specs: Seq<ChannelSpec>) -> Option<Seq<char>> {
        if channel_problem(up_specs) is Some {
            channel_problem(up_specs)
        } else if self.defmt_problem(up_specs) is Some {
            self.defmt_problem(up_specs)
        } else if self.logging_problem(up_specs) is Some {
            self.logging_problem(up_specs)
        } else if self.mode_problem() is Some {
            self.mode_problem()
        } else {
            self.filter_problem()
        }
    }

    fn has_defmt_up_channel(up_specs: &[ChannelSpec]) -> (found: bool)
        ensures
            found == has_defmt(up_specs@),
    {
        let mut index: usize = 0;
        while index < up_specs.len()
            invariant
                index <= up_specs@.len(),
                forall|i: int|
                    0 <= i < index ==> (#[trigger] up_specs@[i]).mode != ChannelEncoding::Defmt,
            decreases up_specs@.len() - index,
        {
            if up_specs[index].mode == ChannelEncoding::Defmt {
                assert(up_specs@[index as int].mode == ChannelEncoding::Defmt);
                return true;
            }
            index += 1;
        }
        false
    }

    /// Decides whether a defmt table is needed.
    pub fn needs_defmt_data(&self, up_specs: &[ChannelSpec]) -> (needed: bool)
        ensures
            needed <==> self.debug_defmt_table || has_defmt(up_specs@),
    {
        self.debug_defmt_table || Self::has_defmt_up_channel(up_specs)
    }

    /// Decides whether the options can stand together.
    pub fn validate(&self, up_specs: &[ChannelSpec]) -> (result: Result<(), String>)
        ensures
            match result {
                Ok(()) => self.problem(up_specs@) is None,
                Err(message) => self.problem(up_specs@) == Some(message@),
            },
    {
        if let Err(message) = self.validate_channels(up_specs) {
            return Err(message);
        }
        if let Err(message) = self.validate_defmt(up_specs) {
            return Err(message);
        }
        if let Err(message) = self.validate_logging(up_specs) {
            return Err(message);
        }
        if let Err(message) = self.validate_operation_modes() {
            return Err(message);
        }
        self.validate_filter()
    }

    fn validate_channels(&self, up_specs: &[ChannelSpec]) -> (result: Result<(), String>)
        ensures
            match result {
                Ok(()) => channel_problem(up_specs@) is None,
                Err(message) => channel_problem(up_specs@) == Some(message@),
            },
    {
        let ghost numbers = channel_numbers(up_specs@);
        let mut index: usize = 0;
        while index < up_specs.len()
            invariant
                index <= up_specs@.len(),
                numbers == channel_numbers(up_specs@),
                first_repeat(numbers, index as int) is None,
            decreases up_specs@.len() - index,
        {
            let mut earlier: usize = 0;
            while earlier < index
                invariant
                    earlier <= index < up_specs@.len(),
                    numbers == channel_numbers(up_specs@),
                    first_repeat(numbers, index as int) is None,
                    forall|i: int| 0 <= i < earlier ==> #[trigger] numbers[i] != numbers[index as int],
                decreases index - earlier,
            {
                if up_specs[earlier].index == up_specs[index].index {
                    proof {
                        assert(numbers.take(index as int)[earlier as int]
                            == numbers[index as int]);
                        assert(numbers.take(index as int).contains(numbers[index as int]));
                        assert(first_repeat(numbers, index + 1) == Some(index as int));
                        lemma_repeat_stays(numbers, index + 1, numbers.len() as int);
                    }
                    let number = decimal_string(up_specs[index].index as u64);
                    return Err(
                        between("up channel ", number.as_str(), " was specified more than once"),
                    );
                }
                earlier += 1;
            }
            assert(!numbers.take(index as int).contains(numbers[index as int]));
            index += 1;
        }
        Ok(())
    }

    fn validate_defmt(&self, up_specs: &[ChannelSpec]) -> (result: Result<(), String>)
        ensures
            match result {
                Ok(()) => self.defmt_problem(up_specs@) is None,
                Err(message) => self.defmt_problem(up_specs@) == Some(message@),
            },
    {
        let has_defmt = Self::has_defmt_up_channel(up_specs);
        if self.defmt_filters.is_some() && !has_defmt {
            return Err("--defmt-filter requires at least one up channel using :defmt".to_owned());
        }
        if has_defmt && self.elf.is_none() {
            return Err("--elf is required when using an up channel with :defmt".to_owned());
        }
        if self.debug_defmt_table && self.elf.is_none() {
            return Err("--debug-defmt-table requires --elf".to_owned());
        }
        Ok(())
    }

    fn validate_logging(&self, up_specs: &[ChannelSpec]) -> (result: Result<(), String>)
        ensures
            match result {
                Ok(()) => self.logging_problem(up_specs@) is None,
                Err(message) => self.logging_problem(up_specs@) == Some(message@),
            },
    {
        if self.log.is_none() {
            if self.log_per_channel {
                return Err("--log-per-channel requires --log".to_owned());
            }
            if self.log_format.is_some() {
                return Err("--log-format requires --log".to_owned());
            }
        } else if self.is_raw() && !self.log_per_channel && up_specs.len() > 1 {
            return Err(
                "--log-format raw with multiple up channels requires --log-per-channel".to_owned(),
            );
        }
        Ok(())
    }

    fn is_raw(&self) -> (raw: bool)
        ensures
            raw == (self.log_format == Some(LogFormat::Raw)),
    {
        match self.log_format {
            Some(format) => format == LogFormat::Raw,
            None => false,
        }
    }

    fn has_session_options(&self) -> (has: bool)
        ensures
            has == self.session_options(),
    {
        self.up.len() > 0 || self.down.is_some() || self.no_down || self.reset || self.timestamps
            || self.log.is_some() || self.log_per_channel || self.log_format.is_some()
            || self.defmt_filters.is_some() || self.poll_interval != 10
    }

    fn lists_probes(&self) -> (lists: bool)
        ensures
            lists == (self.probe == Some(ProbeInfo::List)),
    {
        match self.probe {
            Some(probe) => probe == ProbeInfo::List,
            None => false,
        }
    }

    fn validate_operation_modes(&self) -> (result: Result<(), String>)
        ensures
            match result {
                Ok(()) => self.mode_problem() is None,
                Err(message) => self.mode_problem() == Some(message@),
            },
    {
        let session = self.has_session_options() || self.color != ColorMode::Auto;
        if self.debug_defmt_table {
            if self.list || self.lists_probes() {
                return Err(
                    "--debug-defmt-table cannot be combined with --list or --probe list".to_owned(),
                );
            }
            if session {
                return Err("--debug-defmt-table cannot be combined with session options".to_owned());
            }
        }
        if self.list {
            if self.lists_probes() {
                return Err("--list cannot be combined with --probe list".to_owned());
            }
            if session {
                return Err("--list cannot be combined with session options".to_owned());
            }
        }
        if self.lists_probes() && (self.list || session) {
            return Err("--probe list cannot be combined with session options".to_owned());
        }
        Ok(())
    }

    fn validate_filter(&self) -> (result: Result<(), String>)
        ensures
            match result {
                Ok(()) => self.filter_problem() is None,
                Err(message) => self.filter_problem() == Some(message@),
            },
    {
        match &self.defmt_filters {
            Some(spec) => {
                let filters = &spec.0;
                let ghost modules = filter_modules(filters_view(filters@));
                let mut index: usize = 0;
                while index < filters.len()
                    invariant
                        index <= filters@.len(),
                        self.defmt_filters == Some(*spec),
                        filters@ == spec.0@,
                        modules == filter_modules(filters_view(filters@)),
                        first_repeat(modules, index as int) is None,
                    decreases filters@.len() - index,
                {
                    assert(modules[index as int] == filters@[index as int].module@);
                    let name = to_chars(filters[index].module.as_str());
                    let mut earlier: usize = 0;
                    while earlier < index
                        invariant
                            earlier <= index < filters@.len(),
                            self.defmt_filters == Some(*spec),
                            filters@ == spec.0@,
                            modules == filter_modules(filters_view(filters@)),
                            name@ == modules[index as int],
                            first_repeat(modules, index as int) is None,
                            forall|i: int|
                                0 <= i < earlier ==> #[trigger] modules[i] != modules[index as int],
                        decreases index - earlier,
                    {
                        assert(modules[earlier as int] == filters@[earlier as int].module@);
                        let other = to_chars(filters[earlier].module.as_str());
                        if same_chars(&other, &name) {
                            proof {
                                assert(modules.take(index as int)[earlier as int]
                                    == modules[index as int]);
                                assert(modules.take(index as int).contains(modules[index as int]));
                                assert(first_repeat(modules, index + 1) == Some(index as int));
                                lemma_repeat_stays(modules, index + 1, modules.len() as int);
                            }
                            return Err(
                                between(
                                    "defmt filter prefix '",
                                    filters[index].module.as_str(),
                                    "' was specified more than once",
                                ),
                            );
                        }
                        earlier += 1;
                    }
                    assert(!modules.take(index as int).contains(modules[index as int]));
                    index += 1;
                }
                Ok(())
            },
            None => Ok(()),
        }
    }
}

/// The channels that are read: those that were asked for, else the first one as a
/// terminal.
pub fn configured_up_specs(specs: &[ChannelSpec]) -> (configured: Vec<ChannelSpec>)
    ensures
        configured@ == (if specs@.len() == 0 {
            seq![ChannelSpec { index: 0, mode: ChannelEncoding::Terminal }]
        } else {
            specs@
        }),
        configured@.len() > 0,
{
    let mut configured: Vec<ChannelSpec> = Vec::new();
    if specs.len() == 0 {
        configured.push(ChannelSpec { index: 0, mode: ChannelEncoding::Terminal });
        assert(configured@ =~= seq![ChannelSpec { index: 0, mode: ChannelEncoding::Terminal }]);
    } else {
        let mut index: usize = 0;
        while index < specs.len()
            invariant
                index <= specs@.len(),
                configured@ == specs@.take(index as int),
            decreases specs@.len() - index,
        {
            configured.push(specs[index]);
            assert(specs@.take(index + 1) =~= specs@.take(index as int).push(
                specs@[index as int],
            ));
            index += 1;
        }
        assert(specs@.take(specs@.len() as int) =~= specs@);
    }
    configured
}

/// Options that stand together name each channel once, and have an ELF file where
/// a channel needs it.
pub proof fn law_valid_options(opts: Opts, up_specs: Seq<ChannelSpec>)
    requires
        opts.problem(up_specs) is None,
    ensures
        channel_numbers(up_specs).no_duplicates(),
        has_defmt(up_specs) ==> opts.elf is Some,
        opts.debug_defmt_table ==> opts.elf is Some,
        opts.defmt_filters is Some ==> has_defmt(up_specs),
{
    let numbers = channel_numbers(up_specs);
    lemma_no_repeat(numbers, numbers.len() as int);
    assert(numbers.take(numbers.len() as int) =~= numbers);
}

/// Options that stand together never ask one file to hold the raw bytes of several
/// channels.
pub proof fn law_valid_log_can_be_kept(opts: Opts, up_specs: Seq<ChannelSpec>, format: LogFormat)
    requires
        opts.problem(up_specs) is None,
        opts.log is Some,
        format == (match opts.log_format {
            Some(format) => format,
            None => LogFormat::Decoded,
        }),
    ensures
        !(format == LogFormat::Raw && !opts.log_per_channel && up_specs.len() > 1),
{
}

/// A probe is meant by `list` or by its number in decimal digits, and by no other
/// text than a number.
pub proof fn law_probes_are_read(value: nat, text: Seq<char>)
    ensures
        probe_info("list"@) == Some(ProbeInfo::List),
        value <= usize::MAX ==> probe_info(decimal(value)) == Some(
            ProbeInfo::Number(value as usize),
        ),
        value > usize::MAX ==> probe_info(decimal(value)) is None,
        text != "list"@ && number(text, 10) is None ==> probe_info(text) is None,
        probe_info(text) == Some(ProbeInfo::List) ==> text == "list"@,
{
    law_decimal_digits_are_read_back(value);
    reveal_strlit("list");
    assert(decimal(value)[0] != "list"@[0]);
}

/// The name of an encoding is read back as the encoding; every other text is refused
/// with its own words.
pub proof fn law_encodings_are_read(encoding: ChannelEncoding, text: Seq<char>)
    ensures
        named_encoding("terminal"@) == Ok::<ChannelEncoding, Seq<char>>(ChannelEncoding::Terminal),
        named_encoding("defmt"@) == Ok::<ChannelEncoding, Seq<char>>(ChannelEncoding::Defmt),
        named_encoding(encoding_name(encoding)) == Ok::<ChannelEncoding, Seq<char>>(encoding),
        text != "terminal"@ && text != "defmt"@ ==> named_encoding(text) == Err::<
            ChannelEncoding,
            Seq<char>,
        >("invalid channel mode '"@ + text + "', expected terminal or defmt"@),
{
    reveal_strlit("terminal");
    reveal_strlit("defmt");
    assert("terminal"@.len() != "defmt"@.len());
}

/// A channel is meant by its number in decimal digits, which makes it a terminal, or
/// by its number, a colon and the name of its encoding.
pub proof fn law_channels_are_read(index: u32, mode: ChannelEncoding)
    ensures
        channel_spec(decimal(index as nat)) == Ok::<ChannelSpec, Seq<char>>(
            ChannelSpec { index, mode: ChannelEncoding::Terminal },
        ),
        channel_spec(decimal(index as nat) + seq![':'] + encoding_name(mode)) == Ok::<
            ChannelSpec,
            Seq<char>,
        >(ChannelSpec { index, mode }),
{
    let digits = decimal(index as nat);
    let name = encoding_name(mode);
    law_decimal_digits_are_read_back(index as nat);
    law_encodings_are_read(mode, name);
    reveal_strlit("terminal");
    reveal_strlit("defmt");
    assert(!digits.contains(':'));
    assert(!name.contains(':'));
    law_pieces_stand_between_separators(digits, name, ':');
    law_pieces_stand_between_separators(name, digits, ':');
    assert(pieces(digits + seq![':'] + name, ':') =~= seq![digits, name]);
}

/// A channel is refused without a number, with a text that is no number of a channel,
/// with an encoding that does not exist, and with more than one colon.
pub proof fn law_other_channels_are_refused(
    first: Seq<char>,
    second: Seq<char>,
    third: Seq<char>,
)
    requires
        !first.contains(':'),
        !second.contains(':'),
        !third.contains(':'),
    ensures
        first.len() == 0 ==> channel_spec(first) == Err::<ChannelSpec, Seq<char>>(
            "channel index cannot be empty"@,
        ) && channel_spec(first + seq![':'] + second) == Err::<ChannelSpec, Seq<char>>(
            "channel index cannot be empty"@,
        ),
        first.len() > 0 && (number(first, 10) is None || number(first, 10)->0 > u32::MAX)
            ==> channel_spec(first) == Err::<ChannelSpec, Seq<char>>(
            "invalid channel index '"@ + first + "', expected a u32"@,
        ) && channel_spec(first + seq![':'] + second) == Err::<ChannelSpec, Seq<char>>(
            "invalid channel index '"@ + first + "', expected a u32"@,
        ),
        first.len() > 0 && number(first, 10) is Some && number(first, 10)->0 <= u32::MAX && second
            != "terminal"@ && second != "defmt"@ ==> channel_spec(first + seq![':'] + second)
            == Err::<ChannelSpec, Seq<char>>(
            "invalid channel mode '"@ + second + "', expected terminal or defmt"@,
        ),
        ({
            let text = first + seq![':'] + (second + seq![':'] + third);
            channel_spec(text) == Err::<ChannelSpec, Seq<char>>(
                "invalid channel specification '"@ + text + "', expected INDEX[:MODE]"@,
            )
        }),
{
    law_pieces_stand_between_separators(first, second, ':');
    law_pieces_stand_between_separators(second, third, ':');
    law_pieces_stand_between_separators(third, second, ':');
    law_pieces_stand_between_separators(first, second + seq![':'] + third, ':');
    assert(pieces(first + seq![':'] + second, ':') =~= seq![first, second]);
    assert(pieces(first + seq![':'] + (second + seq![':'] + third), ':') =~= seq![
        first,
        second,
        third,
    ]);
}

/// An address in digits: hexadecimal behind `0x`, or decimal.
pub open spec fn spelled(value: u64, hexadecimal: bool) -> Seq<char> {
    if hexadecimal {
        seq!['0', 'x'] + hex(value as nat)
    } else {
        decimal(value as nat)
    }
}

/// A text without dots and white space, and not empty.
spec fn is_word(text: Seq<char>) -> bool {
    text.len() > 0 && forall|i: int|
        0 <= i < text.len() ==> #[trigger] text[i] != '.' && !is_white_space(text[i])
}

proof fn lemma_spelled(value: u64, hexadecimal: bool)
    ensures
        address(spelled(value, hexadecimal)) == Ok::<u64, Seq<char>>(value),
        is_word(spelled(value, hexadecimal)),
{
    let text = spelled(value, hexadecimal);
    law_decimal_digits_are_read_back(value as nat);
    law_hexadecimal_digits_are_read_back(value as nat);
    if hexadecimal {
        assert(text.skip(2) =~= hex(value as nat));
    }
    assert forall|i: int| 0 <= i < text.len() implies #[trigger] text[i] != '.' && !is_white_space(
        text[i],
    ) by {
        if hexadecimal && i >= 2 {
            assert(text[i] == hex(value as nat)[i - 2]);
        }
        law_ascii_white_space(text[i]);
    }
}

proof fn lemma_first_dots(text: Seq<char>, from: int, place: int)
    requires
        0 <= from <= place <= text.len(),
        forall|i: int| from <= i < place ==> #[trigger] text[i] != '.',
        place == text.len() || (place + 2 <= text.len() && text[place] == '.' && text[place + 1]
            == '.'),
    ensures
        first_dots(text, from) == (if place == text.len() {
            None
        } else {
            Some(place)
        }),
    decreases place - from,
{
    if from < place {
        lemma_first_dots(text, from + 1, place);
    }
}

proof fn lemma_dot_pieces(first: Seq<char>, second: Seq<char>)
    requires
        is_word(first),
    ensures
        dot_pieces(first) == seq![first],
        dot_pieces(first + seq!['.', '.'] + second) == seq![first] + dot_pieces(second),
{
    let whole = first + seq!['.', '.'] + second;
    lemma_first_dots(first, 0, first.len() as int);
    lemma_first_dots(whole, 0, first.len() as int);
    assert(whole.take(first.len() as int) =~= first);
    assert(whole.skip(first.len() as int + 2) =~= second);
}

proof fn lemma_two_addresses(first: Seq<char>, second: Seq<char>)
    ensures
        addresses(seq![first]) == (match address(first) {
            Ok(value) => Ok::<Seq<u64>, Seq<char>>(seq![value]),
            Err(message) => Err(message),
        }),
        addresses(seq![first, second]) == (match address(first) {
            Ok(value) => match address(second) {
                Ok(other) => Ok::<Seq<u64>, Seq<char>>(seq![value, other]),
                Err(message) => Err(message),
            },
            Err(message) => Err(message),
        }),
{
    reveal_with_fuel(addresses, 3);
    assert(seq![first].drop_last() =~= Seq::<Seq<char>>::empty());
    assert(seq![first, second].drop_last() =~= seq![first]);
    if let Ok(value) = address(first) {
        assert(Seq::<u64>::empty().push(value) =~= seq![value]);
        if let Ok(other) = address(second) {
            assert(seq![value].push(other) =~= seq![value, other]);
        }
    }
}

/// A region is read from addresses in decimal digits or, behind `0x`, hexadecimal
/// ones: an address means itself, and two with two dots between them mean the range
/// from the one to the other, which must go up. White space around is passed over,
/// and where there is nothing else all RAM is meant.
pub proof fn law_regions_are_read(
    before: Seq<char>,
    after: Seq<char>,
    start: u64,
    end: u64,
    first: bool,
    second: bool,
)
    requires
        forall|i: int| 0 <= i < before.len() ==> is_white_space(#[trigger] before[i]),
        forall|i: int| 0 <= i < after.len() ==> is_white_space(#[trigger] after[i]),
    ensures
        scan_region(before) == Ok::<RegionView, Seq<char>>(RegionView::Ram),
        scan_region(before + spelled(start, first) + after) == Ok::<RegionView, Seq<char>>(
            RegionView::Exact(start),
        ),
        ({
            let text = spelled(start, first) + seq!['.', '.'] + spelled(end, second);
            &&& start < end ==> scan_region(before + text + after) == Ok::<RegionView, Seq<char>>(
                RegionView::Ranges(seq![(start, end)]),
            )
            &&& start >= end ==> scan_region(before + text + after) == Err::<RegionView, Seq<char>>(
                "invalid scan range '"@ + text + "': start 0x"@ + hex(start as nat)
                    + " must be less than end 0x"@ + hex(end as nat),
            )
        }),
{
    let low = spelled(start, first);
    let high = spelled(end, second);
    let nothing = Seq::<char>::empty();
    lemma_spelled(start, first);
    lemma_spelled(end, second);
    law_trimming(before, nothing, nothing);
    assert(before + nothing + nothing =~= before);
    law_trimming(before, low, after);
    lemma_dot_pieces(low, high);
    lemma_dot_pieces(high, low);
    lemma_two_addresses(low, high);
    let text = low + seq!['.', '.'] + high;
    assert(text[0] == low[0] && text.last() == high.last());
    law_trimming(before, text, after);
    assert(dot_pieces(text) =~= seq![low, high]);
}

/// A text with more than one pair of dots is no region.
pub proof fn law_regions_have_two_ends(
    start: u64,
    middle: u64,
    end: u64,
    first: bool,
    second: bool,
    third: bool,
)
    ensures
        scan_region(
            spelled(start, first) + seq!['.', '.'] + (spelled(middle, second) + seq!['.', '.']
                + spelled(end, third)),
        ) == Err::<RegionView, Seq<char>>("Invalid range: multiple '..'s"@),
{
    let low = spelled(start, first);
    let mid = spelled(middle, second);
    let high = spelled(end, third);
    let nothing = Seq::<char>::empty();
    lemma_spelled(start, first);
    lemma_spelled(middle, second);
    lemma_spelled(end, third);
    let rest = mid + seq!['.', '.'] + high;
    let text = low + seq!['.', '.'] + rest;
    lemma_dot_pieces(low, rest);
    lemma_dot_pieces(mid, high);
    lemma_dot_pieces(high, low);
    let parts = seq![low, mid, high];
    assert(dot_pieces(text) =~= parts);
    lemma_two_addresses(low, mid);
    assert(parts.drop_last() =~= seq![low, mid]);
    assert(addresses(parts) == Ok::<Seq<u64>, Seq<char>>(seq![start, middle].push(end)));
    assert(text[0] == low[0]);
    assert(text.last() == high.last());
    law_trimming(nothing, text, nothing);
    assert(nothing + text + nothing =~= text);
}

/// A list repeats nothing exactly where all that it holds is different, and else the
/// place that is named is the first that holds what an earlier one holds.
pub proof fn law_first_repeat_is_named<T>(items: Seq<T>, i: int)
    ensures
        first_repeat(items, items.len() as int) is None <==> items.no_duplicates(),
        0 <= i < items.len() && items.take(i).no_duplicates() && items.take(i).contains(items[i])
            ==> first_repeat(items, items.len() as int) == Some(i),
{
    assert(items.take(items.len() as int) =~= items);
    if first_repeat(items, items.len() as int) is None {
        lemma_no_repeat(items, items.len() as int);
    }
    if items.no_duplicates() {
        lemma_different(items, items.len() as int);
    }
    if 0 <= i < items.len() && items.take(i).no_duplicates() && items.take(i).contains(items[i]) {
        lemma_different(items, i);
        lemma_repeat_stays(items, i + 1, items.len() as int);
    }
}

proof fn lemma_different<T>(items: Seq<T>, count: int)
    requires
        0 <= count <= items.len(),
        items.take(count).no_duplicates(),
    ensures
        first_repeat(items, count) is None,
    decreases count,
{
    if count > 0 {
        let all = items.take(count);
        let shorter = items.take(count - 1);
        assert forall|i: int, j: int| 0 <= i < shorter.len() && 0 <= j < shorter.len() && i
            != j implies shorter[i] != shorter[j] by {
            assert(all[i] != all[j]);
        }
        lemma_different(items, count - 1);
        assert forall|i: int| 0 <= i < shorter.len() implies shorter[i] != items[count - 1] by {
            assert(all[i] != all[count - 1]);
        }
    }
}

/// An option is given that only a session heeds, colours included.
pub open spec fn asks_for_a_session(opts: Opts) -> bool {
    ||| opts.up@.len() > 0
    ||| opts.down is Some
    ||| opts.no_down
    ||| opts.reset
    ||| opts.timestamps
    ||| opts.log is Some
    ||| opts.log_per_channel
    ||| opts.log_format is Some
    ||| opts.defmt_filters is Some
    ||| opts.poll_interval != 10
    ||| opts.color != ColorMode::Auto
}

/// Options stand together exactly where no channel is named twice; filters come with
/// a defmt channel, and a defmt channel or a look at the table with an ELF file; what
/// is said of the log comes with a log, and a raw one holds one channel to a file; at
/// most one of the three things that are no session is asked for, and nothing of a
/// session with it; and no filter is named twice.
pub proof fn law_options_stand_together(opts: Opts, up_specs: Seq<ChannelSpec>)
    ensures
        opts.problem(up_specs) is None <==> {
            let defmt = exists|i: int|
                0 <= i < up_specs.len() && (#[trigger] up_specs[i]).mode == ChannelEncoding::Defmt;
            let lists_probes = opts.probe == Some(ProbeInfo::List);
            &&& channel_numbers(up_specs).no_duplicates()
            &&& opts.defmt_filters is Some ==> defmt
            &&& defmt || opts.debug_defmt_table ==> opts.elf is Some
            &&& opts.log_per_channel || opts.log_format is Some ==> opts.log is Some
            &&& opts.log_format == Some(LogFormat::Raw) && up_specs.len() > 1
                ==> opts.log_per_channel
            &&& opts.debug_defmt_table ==> !opts.list && !lists_probes && !asks_for_a_session(opts)
            &&& opts.list ==> !lists_probes && !asks_for_a_session(opts)
            &&& lists_probes ==> !asks_for_a_session(opts)
            &&& opts.defmt_filters matches Some(spec) ==> filter_modules(
                filters_view(spec.0@),
            ).no_duplicates()
        },
{
    law_first_repeat_is_named(channel_numbers(up_specs), 0);
    if let Some(spec) = opts.defmt_filters {
        law_first_repeat_is_named(filter_modules(filters_view(spec.0@)), 0);
    }
}

/// The filters that are asked for.
pub open spec fn filters_of(opts: Opts) -> Seq<FilterView> {
    match opts.defmt_filters {
        Some(spec) => filters_view(spec.0@),
        None => Seq::empty(),
    }
}

/// What is wrong is said: the first repeated channel or filter by its name, and each
/// of the rest by its own words.
pub proof fn law_problems_are_named(opts: Opts, up_specs: Seq<ChannelSpec>, i: int)
    ensures
        ({
            let numbers = channel_numbers(up_specs);
            &&& 0 <= i < numbers.len() && numbers.take(i).no_duplicates() && numbers.take(
                i,
            ).contains(numbers[i]) ==> opts.problem(up_specs) == Some(
                "up channel "@ + decimal(up_specs[i].index as nat)
                    + " was specified more than once"@,
            )
        }),
        ({
            let filters = filters_of(opts);
            let modules = filter_modules(filters);
            &&& 0 <= i < modules.len() && modules.take(
                i,
            ).no_duplicates() && modules.take(i).contains(modules[i]) ==> opts.filter_problem()
                == Some(
                "defmt filter prefix '"@ + filters[i].module + "' was specified more than once"@,
            )
        }),
        opts.defmt_filters is Some && !has_defmt(up_specs) ==> opts.defmt_problem(up_specs) == Some(
            "--defmt-filter requires at least one up channel using :defmt"@,
        ),
        has_defmt(up_specs) && opts.elf is None ==> opts.defmt_problem(up_specs) == Some(
            "--elf is required when using an up channel with :defmt"@,
        ),
        !has_defmt(up_specs) && opts.defmt_filters is None && opts.debug_defmt_table && opts.elf
            is None ==> opts.defmt_problem(up_specs) == Some(
            "--debug-defmt-table requires --elf"@,
        ),
        opts.log is None && opts.log_per_channel ==> opts.logging_problem(up_specs) == Some(
            "--log-per-channel requires --log"@,
        ),
        opts.log is None && !opts.log_per_channel && opts.log_format is Some
            ==> opts.logging_problem(up_specs) == Some("--log-format requires --log"@),
        opts.log is Some && opts.log_format == Some(LogFormat::Raw) && !opts.log_per_channel
            && up_specs.len() > 1 ==> opts.logging_problem(up_specs) == Some(
            "--log-format raw with multiple up channels requires --log-per-channel"@,
        ),
        opts.debug_defmt_table && (opts.list || opts.probe == Some(ProbeInfo::List))
            ==> opts.mode_problem() == Some(
            "--debug-defmt-table cannot be combined with --list or --probe list"@,
        ),
        opts.debug_defmt_table && !opts.list && opts.probe != Some(ProbeInfo::List)
            && asks_for_a_session(opts) ==> opts.mode_problem() == Some(
            "--debug-defmt-table cannot be combined with session options"@,
        ),
        !opts.debug_defmt_table && opts.list && opts.probe == Some(ProbeInfo::List)
            ==> opts.mode_problem() == Some("--list cannot be combined with --probe list"@),
        !opts.debug_defmt_table && opts.list && opts.probe != Some(ProbeInfo::List)
            && asks_for_a_session(opts) ==> opts.mode_problem() == Some(
            "--list cannot be combined with session options"@,
        ),
        !opts.debug_defmt_table && !opts.list && opts.probe == Some(ProbeInfo::List)
            && asks_for_a_session(opts) ==> opts.mode_problem() == Some(
            "--probe list cannot be combined with session options"@,
        ),
{
    law_first_repeat_is_named(channel_numbers(up_specs), i);
    if let Some(spec) = opts.defmt_filters {
        law_first_repeat_is_named(filter_modules(filters_view(spec.0@)), i);
    }
}

/// Of several problems the first is said, in this order: channels, defmt, log, what
/// is to be done, filter.
pub proof fn law_the_first_problem_is_named(opts: Opts, up_specs: Seq<ChannelSpec>)
    ensures
        channel_problem(up_specs) is Some ==> opts.problem(up_specs) == channel_problem(up_specs),
        channel_problem(up_specs) is None && opts.defmt_problem(up_specs) is Some ==> opts.problem(
            up_specs,
        ) == opts.defmt_problem(up_specs),
        channel_problem(up_specs) is None && opts.defmt_problem(up_specs) is None
            && opts.logging_problem(up_specs) is Some ==> opts.problem(up_specs)
            == opts.logging_problem(up_specs),
        channel_problem(up_specs) is None && opts.defmt_problem(up_specs) is None
            && opts.logging_problem(up_specs) is None && opts.mode_problem() is Some
            ==> opts.problem(up_specs) == opts.mode_problem(),
        channel_problem(up_specs) is None && opts.defmt_problem(up_specs) is None
            && opts.logging_problem(up_specs) is None && opts.mode_problem() is None
            ==> opts.problem(up_specs) == opts.filter_problem(),
{
}

/// The prefix of a hexadecimal address may be written with a small or a capital
/// letter.
pub proof fn law_capital_prefixes_are_read(value: u64)
    ensures
        address(seq!['0', 'x'] + hex(value as nat)) == Ok::<u64, Seq<char>>(value),
        address(seq!['0', 'X'] + hex(value as nat)) == Ok::<u64, Seq<char>>(value),
        address(decimal(value as nat)) == Ok::<u64, Seq<char>>(value),
{
    law_hexadecimal_digits_are_read_back(value as nat);
    lemma_spelled(value, true);
    lemma_spelled(value, false);
    assert((seq!['0', 'X'] + hex(value as nat)).skip(2) =~= hex(value as nat));
}

/// A table is needed to look at it, and where a defmt channel is read.
pub proof fn law_tables_are_needed(opts: Opts, up_specs: &[ChannelSpec], needed: bool, i: int)
    requires
        call_ensures(Opts::needs_defmt_data, (&opts, up_specs), needed),
    ensures
        opts.debug_defmt_table ==> needed,
        0 <= i < up_specs@.len() && up_specs@[i].mode == ChannelEncoding::Defmt ==> needed,
        !opts.debug_defmt_table && (forall|j: int|
            0 <= j < up_specs@.len() ==> (#[trigger] up_specs@[j]).mode
                == ChannelEncoding::Terminal) ==> !needed,
{
}

} // verus!
