//! What an ELF file says about a target: its control block and its defmt table.
use crate::scan::ScanRegion;
use crate::text::{between, hex, hex_string, lemma_encode_concat, push_str};
use std::collections::BTreeMap;
use vstd::prelude::*;
use vstd::utf8::*;

verus! {

/// Why something failed: what was being done, and what went wrong below that.
#[derive(Debug)]
pub struct Failure {
    pub message: String,
    pub cause: Option<String>,
}

/// The parts of a failure as values.
pub open spec fn failure_is(failure: Failure, message: Seq<char>, cause: Option<Seq<char>>) -> bool {
    failure.message@ == message && match (failure.cause, cause) {
        (Some(text), Some(wanted)) => text@ == wanted,
        (None, None) => true,
        _ => false,
    }
}

/// What probe-rs finds in a file: the address of a defined `_SEGGER_RTT` symbol,
/// none where there is no such symbol, or what is wrong with the file.
pub uninterp spec fn control_block_symbol(file: Seq<u8>) -> Result<Option<u64>, Seq<char>>;

/// Calls `probe_rs::rtt::find_rtt_control_block_in_raw_file`, whose answer depends
/// on the bytes alone. The error is turned into its text.
#[verifier::external_body]
fn find_control_block_symbol(file: &[u8]) -> (result: Result<Option<u64>, String>)
    ensures
        match result {
            Ok(address) => control_block_symbol(file@) == Ok::<Option<u64>, Seq<char>>(address),
            Err(message) => control_block_symbol(file@) == Err::<Option<u64>, Seq<char>>(message@),
        },
{
    probe_rs::rtt::find_rtt_control_block_in_raw_file(file).map_err(|error| error.to_string())
}

/// Decides where the control block is, from what was found in an ELF file.
pub fn region_from_symbol(path: &str, symbol: Result<Option<u64>, String>) -> (result: Result<
    ScanRegion,
    Failure,
>)
    ensures
        match symbol {
            Ok(Some(address)) => result matches Ok(region) && region == ScanRegion::Exact(address),
            Ok(None) => result matches Err(failure) && failure_is(
                failure,
                "ELF '"@ + path@ + "' has no defined _SEGGER_RTT symbol"@,
                None,
            ),
            Err(message) => result matches Err(failure) && failure_is(
                failure,
                "failed to parse ELF '"@ + path@ + "'"@,
                Some(message@),
            ),
        },
{
    match symbol {
        Ok(Some(address)) => Ok(ScanRegion::Exact(address)),
        Ok(None) => Err(
            Failure {
                message: between("ELF '", path, "' has no defined _SEGGER_RTT symbol"),
                cause: None,
            },
        ),
        Err(message) => Err(
            Failure { message: between("failed to parse ELF '", path, "'"), cause: Some(message) },
        ),
    }
}

/// Finds where an ELF file puts the control block.
pub fn rtt_region_from_elf(path: &str, bytes: &[u8]) -> (result: Result<ScanRegion, Failure>)
    ensures
        match control_block_symbol(bytes@) {
            Ok(Some(address)) => result matches Ok(region) && region == ScanRegion::Exact(address),
            Ok(None) => result matches Err(failure) && failure_is(
                failure,
                "ELF '"@ + path@ + "' has no defined _SEGGER_RTT symbol"@,
                None,
            ),
            Err(message) => result matches Err(failure) && failure_is(
                failure,
                "failed to parse ELF '"@ + path@ + "'"@,
                Some(message),
            ),
        },
{
    let symbol = find_control_block_symbol(bytes);
    region_from_symbol(path, symbol)
}

/// `Table` of defmt-decoder: the format strings of a firmware.
#[verifier::external_type_specification]
#[verifier::external_body]
pub struct ExTable(defmt_decoder::Table);

/// The ELF file that a table was read from.
pub uninterp spec fn table_source(table: defmt_decoder::Table) -> Seq<u8>;

/// What defmt-decoder makes of an ELF file: whether there is a table, or what is
/// wrong with the file.
pub uninterp spec fn table_outcome(elf: Seq<u8>) -> Result<bool, Seq<char>>;

/// Calls `Table::parse` of defmt-decoder, whose answer depends on the bytes alone.
/// The error is turned into its text.
#[verifier::external_body]
fn parse_table(elf: &[u8]) -> (result: Result<Option<defmt_decoder::Table>, String>)
    ensures
        match result {
            Ok(Some(table)) => table_outcome(elf@) == Ok::<bool, Seq<char>>(true) && table_source(
                table,
            ) == elf@,
            Ok(None) => table_outcome(elf@) == Ok::<bool, Seq<char>>(false),
            Err(message) => table_outcome(elf@) == Err::<bool, Seq<char>>(message@),
        },
{
    defmt_decoder::Table::parse(elf).map_err(|error| error.to_string())
}

/// The modules that the messages of a table come from, by the index of the
/// message, where the ELF file says so.
pub uninterp spec fn message_modules(table: Seq<u8>, elf: Seq<u8>) -> Option<Map<u64, Seq<char>>>;

/// Module names as values.
pub open spec fn modules_view(modules: Option<BTreeMap<u64, String>>) -> Option<
    Map<u64, Seq<char>>,
> {
    match modules {
        Some(modules) => Some(modules@.map_values(|name: String| name@)),
        None => None,
    }
}

/// Calls `Table::get_locations` of defmt-decoder, whose answer depends on the table
/// and the bytes alone. Of each location the module is kept; an error is answered
/// by none.
#[verifier::external_body]
fn find_modules(table: &defmt_decoder::Table, elf: &[u8]) -> (modules: Option<BTreeMap<u64, String>>)
    ensures
        modules_view(modules) == message_modules(table_source(*table), elf@),
{
    let locations = table.get_locations(elf).ok()?;
    Some(locations.into_iter().map(|(index, location)| (index, location.module)).collect())
}

/// The name of a table's encoding.
pub uninterp spec fn encoding_text(table: Seq<u8>) -> Seq<char>;

/// Writes out `Table::encoding` of defmt-decoder.
#[verifier::external_body]
fn encoding_name(table: &defmt_decoder::Table) -> (name: String)
    ensures
        name@ == encoding_text(table_source(*table)),
{
    format!("{:?}", table.encoding())
}

/// A table's encoding can find its way back after missed bytes.
pub uninterp spec fn encoding_recovers(table: Seq<u8>) -> bool;

/// Calls `Encoding::can_recover` of defmt-decoder on `Table::encoding`.
#[verifier::external_body]
fn can_recover(table: &defmt_decoder::Table) -> (recovers: bool)
    ensures
        recovers == encoding_recovers(table_source(*table)),
{
    table.encoding().can_recover()
}

/// A table's messages carry time stamps.
pub uninterp spec fn table_has_timestamp(table: Seq<u8>) -> bool;

/// Calls `Table::has_timestamp` of defmt-decoder.
#[verifier::external_body]
fn has_timestamp(table: &defmt_decoder::Table) -> (result: bool)
    ensures
        result == table_has_timestamp(table_source(*table)),
{
    table.has_timestamp()
}

/// The indices of a table's messages.
pub uninterp spec fn table_indices(table: Seq<u8>) -> Seq<usize>;

/// Collects `Table::indices` of defmt-decoder.
#[verifier::external_body]
fn indices(table: &defmt_decoder::Table) -> (result: Vec<usize>)
    ensures
        result@ == table_indices(table_source(*table)),
{
    table.indices().collect()
}

/// The symbols that a table was read from.
pub uninterp spec fn table_symbols(table: Seq<u8>) -> Seq<Seq<char>>;

/// Collects `Table::raw_symbols` of defmt-decoder.
#[verifier::external_body]
fn raw_symbols(table: &defmt_decoder::Table) -> (result: Vec<String>)
    ensures
        result@.map_values(|symbol: String| symbol@) == table_symbols(table_source(*table)),
{
    table.raw_symbols().map(|symbol| symbol.to_string()).collect()
}

/// The defmt table of an ELF file, with the modules of its messages.
pub struct DefmtData {
    pub path: String,
    pub table: defmt_decoder::Table,
    pub modules: Option<BTreeMap<u64, String>>,
}

impl DefmtData {
    /// The ELF file that the table was read from.
    pub open spec fn elf(self) -> Seq<u8> {
        table_source(self.table)
    }

    /// Reads the defmt table of an ELF file.
    pub fn load(path: &str, bytes: &[u8]) -> (result: Result<Self, Failure>)
        ensures
            match table_outcome(bytes@) {
                Ok(true) => result matches Ok(data) && data.path@ == path@ && data.elf() == bytes@
                    && modules_view(data.modules) == message_modules(bytes@, bytes@),
                Ok(false) => result matches Err(failure) && failure_is(
                    failure,
                    "ELF '"@ + path@ + "' contains no .defmt section"@,
                    None,
                ),
                Err(message) => result matches Err(failure) && failure_is(
                    failure,
                    "failed to parse defmt table in '"@ + path@ + "'"@,
                    Some(message),
                ),
            },
    {
        match parse_table(bytes) {
            Ok(Some(table)) => {
                let modules = find_modules(&table, bytes);
                Ok(DefmtData { path: path.to_owned(), table, modules })
            },
            Ok(None) => Err(
                Failure {
                    message: between("ELF '", path, "' contains no .defmt section"),
                    cause: None,
                },
            ),
            Err(message) => Err(
                Failure {
                    message: between("failed to parse defmt table in '", path, "'"),
                    cause: Some(message),
                },
            ),
        }
    }

    /// Decides whether the table's encoding can find its way back after missed
    /// bytes.
    pub fn can_recover(&self) -> (recovers: bool)
        ensures
            recovers == encoding_recovers(self.elf()),
    {
        can_recover(&self.table)
    }

    /// Writes what is known of the table.
    pub fn debug_summary(&self, output: &mut Vec<u8>)
        ensures
            final(output)@ == old(output)@ + summary_text(
                SummaryView {
                    path: self.path@,
                    encoding: encoding_text(self.elf()),
                    has_timestamp: table_has_timestamp(self.elf()),
                    locations: self.modules is Some,
                    indices: table_indices(self.elf()),
                    symbols: table_symbols(self.elf()),
                },
            ),
    {
        let summary = TableSummary {
            encoding: encoding_name(&self.table),
            has_timestamp: has_timestamp(&self.table),
            indices: indices(&self.table),
            symbols: raw_symbols(&self.table),
        };
        write_table_summary(self.path.as_str(), &summary, self.modules.is_some(), output);
    }
}

/// What is shown of a table.
pub struct TableSummary {
    pub encoding: String,
    pub has_timestamp: bool,
    pub indices: Vec<usize>,
    pub symbols: Vec<String>,
}

/// What is shown of a table, as values.
pub struct SummaryView {
    pub path: Seq<char>,
    pub encoding: Seq<char>,
    pub has_timestamp: bool,
    pub locations: bool,
    pub indices: Seq<usize>,
    pub symbols: Seq<Seq<char>>,
}

/// A truth value in words.
pub open spec fn truth(value: bool) -> Seq<char> {
    if value {
        "true"@
    } else {
        "false"@
    }
}

/// A line: a label, a value and a line feed.
pub open spec fn labelled(label: Seq<char>, value: Seq<char>) -> Seq<u8> {
    encode_utf8(label) + encode_utf8(value) + encode_utf8("\n"@)
}

/// One line for each index.
pub open spec fn index_lines(indices: Seq<usize>) -> Seq<u8>
    decreases indices.len(),
{
    if indices.len() == 0 {
        Seq::empty()
    } else {
        index_lines(indices.drop_last()) + labelled("  0x"@, hex(indices.last() as nat))
    }
}

/// One line for each symbol.
pub open spec fn symbol_lines(symbols: Seq<Seq<char>>) -> Seq<u8>
    decreases symbols.len(),
{
    if symbols.len() == 0 {
        Seq::empty()
    } else {
        symbol_lines(symbols.drop_last()) + labelled("  "@, symbols.last())
    }
}

/// The summary of a table.
pub open spec fn summary_text(summary: SummaryView) -> Seq<u8> {
    labelled("ELF: "@, summary.path) + labelled("Encoding: "@, summary.encoding) + labelled(
        "Has timestamp: "@,
        truth(summary.has_timestamp),
    ) + labelled("Locations: "@, truth(summary.locations)) + encode_utf8("Indices:\n"@)
        + index_lines(summary.indices) + encode_utf8("Raw symbols:\n"@) + symbol_lines(
        summary.symbols,
    )
}

fn push_labelled(output: &mut Vec<u8>, label: &str, value: &str)
    ensures
        final(output)@ == old(output)@ + labelled(label@, value@),
{
    push_str(output, label);
    push_str(output, value);
    push_str(output, "\n");
    assert(output@ =~= old(output)@ + labelled(label@, value@));
}

fn truth_text(value: bool) -> (text: &'static str)
    ensures
        text@ == truth(value),
{
    if value {
        "true"
    } else {
        "false"
    }
}

/// Writes the summary of a table.
pub fn write_table_summary(
    path: &str,
    summary: &TableSummary,
    locations: bool,
    output: &mut Vec<u8>,
)
    ensures
        final(output)@ == old(output)@ + summary_text(
            SummaryView {
                path: path@,
                encoding: summary.encoding@,
                has_timestamp: summary.has_timestamp,
                locations,
                indices: summary.indices@,
                symbols: summary.symbols@.map_values(|symbol: String| symbol@),
            },
        ),
{
    let ghost symbols = summary.symbols@.map_values(|symbol: String| symbol@);
    let ghost start = output@;
    push_labelled(output, "ELF: ", path);
    let ghost text = labelled("ELF: "@, path@);
    push_labelled(output, "Encoding: ", summary.encoding.as_str());
    let ghost text = text + labelled("Encoding: "@, summary.encoding@);
    assert(output@ =~= start + text);
    push_labelled(output, "Has timestamp: ", truth_text(summary.has_timestamp));
    let ghost text = text + labelled("Has timestamp: "@, truth(summary.has_timestamp));
    assert(output@ =~= start + text);
    push_labelled(output, "Locations: ", truth_text(locations));
    let ghost text = text + labelled("Locations: "@, truth(locations));
    assert(output@ =~= start + text);
    push_str(output, "Indices:\n");
    let ghost text = text + encode_utf8("Indices:\n"@);
    assert(output@ =~= start + text);
    push_index_lines(output, &summary.indices);
    let ghost text = text + index_lines(summary.indices@);
    assert(output@ =~= start + text);
    push_str(output, "Raw symbols:\n");
    let ghost text = text + encode_utf8("Raw symbols:\n"@);
    assert(output@ =~= start + text);
    push_symbol_lines(output, &summary.symbols);
    let ghost text = text + symbol_lines(symbols);
    assert(output@ =~= start + text);
}

fn push_index_lines(output: &mut Vec<u8>, indices: &Vec<usize>)
    ensures
        final(output)@ == old(output)@ + index_lines(indices@),
{
    let ghost head = output@;
    let mut index: usize = 0;
    assert(indices@.take(0) =~= Seq::<usize>::empty());
    assert(head + Seq::<u8>::empty() =~= head);
    while index < indices.len()
        invariant
            index <= indices@.len(),
            output@ == head + index_lines(indices@.take(index as int)),
        decreases indices@.len() - index,
    {
        assert(indices@.take(index + 1).drop_last() =~= indices@.take(index as int));
        let number = hex_string(indices[index] as u64);
        push_labelled(output, "  0x", number.as_str());
        assert(output@ =~= head + index_lines(indices@.take(index + 1)));
        index += 1;
    }
    assert(indices@.take(index as int) =~= indices@);
}

fn push_symbol_lines(output: &mut Vec<u8>, symbols: &Vec<String>)
    ensures
        final(output)@ == old(output)@ + symbol_lines(
            symbols@.map_values(|symbol: String| symbol@),
        ),
{
    let ghost texts = symbols@.map_values(|symbol: String| symbol@);
    let ghost head = output@;
    let mut index: usize = 0;
    assert(texts.take(0) =~= Seq::<Seq<char>>::empty());
    assert(head + Seq::<u8>::empty() =~= head);
    while index < symbols.len()
        invariant
            index <= symbols@.len(),
            texts == symbols@.map_values(|symbol: String| symbol@),
            output@ == head + symbol_lines(texts.take(index as int)),
        decreases symbols@.len() - index,
    {
        assert(texts.take(index + 1).drop_last() =~= texts.take(index as int));
        assert(texts.take(index + 1).last() == symbols@[index as int]@);
        push_labelled(output, "  ", symbols[index].as_str());
        assert(output@ =~= head + symbol_lines(texts.take(index + 1)));
        index += 1;
    }
    assert(texts.take(index as int) =~= texts);
}

/// The summary of a table: the path, the encoding, whether there are time stamps and
/// locations, then the indices in hexadecimal digits and the symbols, one to a line.
pub proof fn law_summaries_tell_the_table(summary: SummaryView)
    ensures
        summary_text(summary) == encode_utf8("ELF: "@) + encode_utf8(summary.path) + encode_utf8(
            "\nEncoding: "@,
        ) + encode_utf8(summary.encoding) + encode_utf8("\nHas timestamp: "@) + encode_utf8(
            if summary.has_timestamp {
                "true"@
            } else {
                "false"@
            },
        ) + encode_utf8("\nLocations: "@) + encode_utf8(
            if summary.locations {
                "true"@
            } else {
                "false"@
            },
        ) + encode_utf8("\nIndices:\n"@) + index_lines(summary.indices) + encode_utf8(
            "Raw symbols:\n"@,
        ) + symbol_lines(summary.symbols),
{
    reveal_strlit("\n");
    reveal_strlit("Encoding: ");
    reveal_strlit("\nEncoding: ");
    reveal_strlit("Has timestamp: ");
    reveal_strlit("\nHas timestamp: ");
    reveal_strlit("Locations: ");
    reveal_strlit("\nLocations: ");
    reveal_strlit("Indices:\n");
    reveal_strlit("\nIndices:\n");
    lemma_encode_concat("\n"@, "Encoding: "@);
    lemma_encode_concat("\n"@, "Has timestamp: "@);
    lemma_encode_concat("\n"@, "Locations: "@);
    lemma_encode_concat("\n"@, "Indices:\n"@);
    assert("\n"@ + "Encoding: "@ =~= "\nEncoding: "@);
    assert("\n"@ + "Has timestamp: "@ =~= "\nHas timestamp: "@);
    assert("\n"@ + "Locations: "@ =~= "\nLocations: "@);
    assert("\n"@ + "Indices:\n"@ =~= "\nIndices:\n"@);
    let end = encode_utf8("\n"@);
    let path = encode_utf8("ELF: "@) + encode_utf8(summary.path);
    let encoding = path + encode_utf8("\nEncoding: "@) + encode_utf8(summary.encoding);
    let stamped = encoding + encode_utf8("\nHas timestamp: "@) + encode_utf8(
        truth(summary.has_timestamp),
    );
    let located = stamped + encode_utf8("\nLocations: "@) + encode_utf8(truth(summary.locations));
    assert(labelled("ELF: "@, summary.path) + labelled("Encoding: "@, summary.encoding)
        =~= encoding + end);
    assert(encoding + end + labelled("Has timestamp: "@, truth(summary.has_timestamp))
        =~= stamped + end);
    assert(stamped + end + labelled("Locations: "@, truth(summary.locations)) =~= located + end);
    assert(located + end + encode_utf8("Indices:\n"@) =~= located + encode_utf8("\nIndices:\n"@));
}

/// Each index and each symbol has a line of its own, behind those before it.
pub proof fn law_every_index_and_symbol_is_listed(
    indices: Seq<usize>,
    index: usize,
    symbols: Seq<Seq<char>>,
    symbol: Seq<char>,
)
    ensures
        index_lines(indices.push(index)) == index_lines(indices) + encode_utf8(
            "  0x"@ + hex(index as nat) + "\n"@,
        ),
        index_lines(Seq::empty()).len() == 0,
        symbol_lines(symbols.push(symbol)) == symbol_lines(symbols) + encode_utf8(
            "  "@ + symbol + "\n"@,
        ),
        symbol_lines(Seq::empty()).len() == 0,
{
    assert(indices.push(index).drop_last() =~= indices);
    assert(symbols.push(symbol).drop_last() =~= symbols);
    lemma_encode_concat("  0x"@, hex(index as nat));
    lemma_encode_concat("  0x"@ + hex(index as nat), "\n"@);
    lemma_encode_concat("  "@, symbol);
    lemma_encode_concat("  "@ + symbol, "\n"@);
}

/// A control block is looked for at the address that the ELF file gives its symbol. A
/// file without the symbol is refused by its path, and so is one that cannot be read,
/// with the reason.
pub proof fn law_symbols_give_the_region(
    path: &str,
    symbol: Result<Option<u64>, String>,
    address: u64,
    result: Result<ScanRegion, Failure>,
)
    requires
        call_ensures(region_from_symbol, (path, symbol), result),
    ensures
        symbol == Ok::<Option<u64>, String>(Some(address)) ==> (result matches Ok(region) && region
            == ScanRegion::Exact(address)),
        symbol == Ok::<Option<u64>, String>(None) ==> (result matches Err(failure)
            && failure.message@ == "ELF '"@ + path@ + "' has no defined _SEGGER_RTT symbol"@
            && failure.cause is None),
        symbol is Err ==> (result matches Err(failure) && failure_is(
            failure,
            "failed to parse ELF '"@ + path@ + "'"@,
            Some(symbol->Err_0@),
        )),
{
}

/// The table of an ELF file is handed out with its path and the modules of its
/// messages. A file without one is refused by its path, and so is one that cannot be
/// read, with the reason.
pub proof fn law_tables_are_loaded(path: &str, bytes: &[u8], result: Result<DefmtData, Failure>)
    requires
        call_ensures(DefmtData::load, (path, bytes), result),
    ensures
        result is Ok <==> table_outcome(bytes@) == Ok::<bool, Seq<char>>(true),
        result matches Ok(data) ==> data.path@ == path@ && data.elf() == bytes@ && modules_view(
            data.modules,
        ) == message_modules(bytes@, bytes@),
        table_outcome(bytes@) == Ok::<bool, Seq<char>>(false) ==> (result matches Err(failure)
            && failure_is(failure, "ELF '"@ + path@ + "' contains no .defmt section"@, None)),
        table_outcome(bytes@) is Err ==> (result matches Err(failure) && failure_is(
            failure,
            "failed to parse defmt table in '"@ + path@ + "'"@,
            Some(table_outcome(bytes@)->Err_0),
        )),
{
}

/// A control block is looked for where the ELF file's symbol says.
pub proof fn law_elf_files_give_the_region(
    path: &str,
    bytes: &[u8],
    address: u64,
    result: Result<ScanRegion, Failure>,
)
    requires
        call_ensures(rtt_region_from_elf, (path, bytes), result),
    ensures
        control_block_symbol(bytes@) == Ok::<Option<u64>, Seq<char>>(Some(address)) ==> (
        result matches Ok(region) && region == ScanRegion::Exact(address)),
        result is Ok ==> control_block_symbol(bytes@) matches Ok(Some(_)),
{
}

} // verus!
