//! The choice of a debug probe.
use crate::cli::ProbeInfo;
use crate::parse::{
    digits_value, law_decimal_digits_are_read_back, law_hexadecimal_digits_are_read_back,
    law_trimming, lemma_number_is_natural, number, parse_usize, trim, trimmed,
};
use crate::text::{
    between, decimal, decimal_string, followed, hex, hex_string, is_white_space,
    law_ascii_white_space, lemma_encode_concat, push_chars, push_str, to_chars,
};
use vstd::prelude::*;
use vstd::utf8::*;

verus! {

/// What is known of a probe that is plugged in.
pub struct ProbeEntry {
    pub identifier: String,
    pub probe_type: String,
    pub serial_number: Option<String>,
    pub vendor_id: u16,
    pub product_id: u16,
    pub interface: Option<u8>,
}

/// What is said of targets that cannot be served.
pub open spec fn unsupported_target() -> Seq<char> {
    "64-bit targets are not supported until probe-rs fixes 32-bit RTT offset writes on 64-bit targets"@
}

/// Refuses targets that cannot be served.
pub fn ensure_supported_target(is_64_bit: bool) -> (result: Result<(), String>)
    ensures
        match result {
            Ok(()) => !is_64_bit,
            Err(message) => is_64_bit && message@ == unsupported_target(),
        },
{
    if is_64_bit {
        return Err(
            "64-bit targets are not supported until probe-rs fixes 32-bit RTT offset writes on 64-bit targets".to_owned(),
        );
    }
    Ok(())
}

/// Chooses a probe where no question is needed: the one that was asked for, else
/// the only one.
pub fn automatic_selection(count: usize, requested: Option<&ProbeInfo>) -> (result: Result<
    Option<usize>,
    String,
>)
    ensures
        match requested {
            Some(ProbeInfo::Number(index)) => result == Ok::<Option<usize>, String>(Some(*index)),
            Some(ProbeInfo::List) => result matches Err(message) && message@
                == "probe list must be handled before selecting a probe"@,
            None => result == Ok::<Option<usize>, String>(
                if count == 1 {
                    Some(0)
                } else {
                    None
                },
            ),
        },
{
    match requested {
        Some(ProbeInfo::Number(index)) => Ok(Some(*index)),
        Some(ProbeInfo::List) => Err(
            "probe list must be handled before selecting a probe".to_owned(),
        ),
        None => if count == 1 {
            Ok(Some(0))
        } else {
            Ok(None)
        },
    }
}

/// How the choice of a probe goes on.
#[derive(Debug)]
pub enum Selection {
    /// A probe is chosen.
    Chosen(usize),
    /// The user is asked.
    Ask,
}

/// Decides how a probe is chosen. The user can only be asked at a terminal.
pub fn select(count: usize, requested: Option<&ProbeInfo>, terminal: bool) -> (result: Result<
    Selection,
    String,
>)
    ensures
        match requested {
            Some(ProbeInfo::Number(index)) => result matches Ok(selection) && selection
                == Selection::Chosen(*index),
            Some(ProbeInfo::List) => result matches Err(message) && message@
                == "probe list must be handled before selecting a probe"@,
            None => if count == 1 {
                result matches Ok(selection) && selection == Selection::Chosen(0)
            } else if terminal {
                result matches Ok(selection) && selection == Selection::Ask
            } else {
                result matches Err(message) && message@
                    == "Multiple debug probes found; specify one with '--probe INDEX' when stdin is not interactive."@
            },
        },
{
    match automatic_selection(count, requested) {
        Ok(Some(index)) => Ok(Selection::Chosen(index)),
        Ok(None) => {
            if terminal {
                Ok(Selection::Ask)
            } else {
                Err(
                    "Multiple debug probes found; specify one with '--probe INDEX' when stdin is not interactive.".to_owned(),
                )
            }
        },
        Err(message) => Err(message),
    }
}

/// Reads the user's choice among `count` probes.
pub fn chosen_probe(input: &str, count: usize) -> (choice: Option<usize>)
    ensures
        choice == (match number(trimmed(input@), 10) {
            Some(value) => if value < count {
                Some(value as usize)
            } else {
                None
            },
            None => None,
        }),
{
    let text = trim(&to_chars(input));
    proof {
        lemma_number_is_natural(text@, 10);
    }
    match parse_usize(&text) {
        Some(index) => if index < count {
            Some(index)
        } else {
            None
        },
        None => None,
    }
}

/// The question for a probe.
pub fn selection_prompt(count: usize) -> (prompt: String)
    requires
        count > 0,
    ensures
        prompt@ == "Select probe [0-"@ + decimal((count - 1) as nat) + "]: "@,
{
    let last = decimal_string((count - 1) as u64);
    between("Select probe [0-", last.as_str(), "]: ")
}

/// Decides whether a chosen probe can be opened among `count` ones.
pub fn check_probe(number: usize, count: usize) -> (result: Result<(), String>)
    ensures
        match result {
            Ok(()) => number < count,
            Err(message) => if count == 0 {
                message@
                    == "No debug probes available. Make sure your probe is plugged in, supported and up-to-date."@
            } else {
                number >= count && message@ == "Probe "@ + decimal(number as nat)
                    + " does not exist."@
            },
        },
{
    if count == 0 {
        return Err(
            "No debug probes available. Make sure your probe is plugged in, supported and up-to-date.".to_owned(),
        );
    }
    if number >= count {
        let text = decimal_string(number as u64);
        return Err(between("Probe ", text.as_str(), " does not exist."));
    }
    Ok(())
}

/// A text, or another where it is missing.
pub open spec fn text_or(text: Option<String>, missing: Seq<char>) -> Seq<char> {
    match text {
        Some(text) => text@,
        None => missing,
    }
}

/// How a probe is called in a session.
pub fn probe_label(probe: &ProbeEntry) -> (label: String)
    ensures
        label@ == probe.identifier@ + " "@ + text_or(probe.serial_number, "(no serial number)"@),
{
    match &probe.serial_number {
        Some(serial) => between(probe.identifier.as_str(), " ", serial.as_str()),
        None => between(probe.identifier.as_str(), " ", "(no serial number)"),
    }
}

/// What is said where no session could be opened.
pub fn session_error(error: &str, chip_given: bool, chip_not_found: bool) -> (message: String)
    ensures
        message@ == (if !chip_given && chip_not_found {
            "Error creating debug session: "@ + error@
                + "\nHint: Use '--chip' to specify the target chip type manually"@
        } else {
            "Error creating debug session: "@ + error@
        }),
{
    if !chip_given && chip_not_found {
        between(
            "Error creating debug session: ",
            error,
            "\nHint: Use '--chip' to specify the target chip type manually",
        )
    } else {
        followed("Error creating debug session: ", error)
    }
}

/// Zeros.
pub open spec fn zeros(count: int) -> Seq<char>
    decreases count,
{
    if count <= 0 {
        Seq::empty()
    } else {
        zeros(count - 1).push('0')
    }
}

/// The lower-case hexadecimal digits of a number, with zeros before them up to a
/// width.
pub open spec fn padded_hex(number: nat, width: int) -> Seq<char> {
    zeros(width - hex(number).len()) + hex(number)
}

/// Writes a number in lower-case hexadecimal with zeros before it up to a width.
pub fn push_padded_hex(output: &mut Vec<u8>, number: u64, width: usize)
    ensures
        final(output)@ == old(output)@ + encode_utf8(padded_hex(number as nat, width as int)),
{
    let digits = hex_string(number);
    let chars = to_chars(digits.as_str());
    let mut padded: Vec<char> = Vec::new();
    let mut count: usize = 0;
    let missing = if chars.len() < width {
        width - chars.len()
    } else {
        0
    };
    while count < missing
        invariant
            count <= missing,
            padded@ == zeros(count as int),
        decreases missing - count,
    {
        padded.push('0');
        count += 1;
    }
    padded.extend_from_slice(&chars);
    assert(padded@ =~= padded_hex(number as nat, width as int));
    push_chars(output, &padded);
}

/// A text with a line behind it: a label, a value and a line feed.
pub open spec fn with_line(text: Seq<u8>, label: Seq<char>, value: Seq<char>) -> Seq<u8> {
    text + encode_utf8(label) + encode_utf8(value) + encode_utf8("\n"@)
}

/// A text with what the list says of a probe behind it.
pub open spec fn with_probe(text: Seq<u8>, probe: ProbeEntry, index: nat) -> Seq<u8> {
    let named = with_line(
        text + encode_utf8("  ["@) + encode_utf8(decimal(index)),
        "] "@,
        probe.identifier@,
    );
    let typed = with_line(named, "      Type: "@, probe.probe_type@);
    let numbered = with_line(
        typed,
        "      Serial: "@,
        text_or(probe.serial_number, "(none)"@),
    );
    let usb = numbered + encode_utf8("      USB: "@) + encode_utf8(
        padded_hex(probe.vendor_id as nat, 4),
    ) + encode_utf8(":"@) + encode_utf8(padded_hex(probe.product_id as nat, 4)) + encode_utf8(
        "\n"@,
    );
    match probe.interface {
        Some(interface) => with_line(usb, "      Interface: "@, decimal(interface as nat)),
        None => usb,
    }
}

/// A text with the list of the first `count` probes behind it. An empty line
/// stands between two of them.
pub open spec fn with_probes(text: Seq<u8>, probes: Seq<ProbeEntry>, count: int) -> Seq<u8>
    decreases count,
{
    if count <= 0 {
        text
    } else {
        let listed = with_probe(
            with_probes(text, probes, count - 1),
            probes[count - 1],
            (count - 1) as nat,
        );
        if count < probes.len() {
            listed + encode_utf8("\n"@)
        } else {
            listed
        }
    }
}

fn push_line(output: &mut Vec<u8>, label: &str, value: &str)
    ensures
        final(output)@ == with_line(old(output)@, label@, value@),
{
    push_str(output, label);
    push_str(output, value);
    push_str(output, "\n");
}

fn push_probe(output: &mut Vec<u8>, probe: &ProbeEntry, index: usize)
    ensures
        final(output)@ == with_probe(old(output)@, *probe, index as nat),
{
    let number = decimal_string(index as u64);
    push_str(output, "  [");
    push_str(output, number.as_str());
    push_line(output, "] ", probe.identifier.as_str());
    push_line(output, "      Type: ", probe.probe_type.as_str());
    match &probe.serial_number {
        Some(serial) => push_line(output, "      Serial: ", serial.as_str()),
        None => push_line(output, "      Serial: ", "(none)"),
    }
    push_str(output, "      USB: ");
    push_padded_hex(output, probe.vendor_id as u64, 4);
    push_str(output, ":");
    push_padded_hex(output, probe.product_id as u64, 4);
    push_str(output, "\n");
    if let Some(interface) = probe.interface {
        let value = decimal_string(interface as u64);
        push_line(output, "      Interface: ", value.as_str());
    }
}

/// Writes the list of the probes.
pub fn write_probe_list(output: &mut Vec<u8>, probes: &[ProbeEntry])
    ensures
        final(output)@ == with_probes(old(output)@, probes@, probes@.len() as int),
{
    let ghost start = output@;
    let mut index: usize = 0;
    while index < probes.len()
        invariant
            index <= probes@.len(),
            output@ == with_probes(start, probes@, index as int),
        decreases probes@.len() - index,
    {
        push_probe(output, &probes[index], index);
        if index + 1 < probes.len() {
            push_str(output, "\n");
        }
        index += 1;
    }
}

/// Writes the list of the probes under a heading.
pub fn list_probes(output: &mut Vec<u8>, probes: &[ProbeEntry])
    ensures
        final(output)@ == with_probes(
            old(output)@ + encode_utf8("Available probes:\n"@),
            probes@,
            probes@.len() as int,
        ),
{
    push_str(output, "Available probes:\n");
    write_probe_list(output, probes);
}

/// A number in hexadecimal digits with zeros before it is as long as the width asks,
/// or longer where the number needs it, and is read back as the number.
pub proof fn law_padded_numbers_are_read_back(value: nat, width: int)
    ensures
        digits_value(padded_hex(value, width), 16) == Some(value as int),
        padded_hex(value, width).len() == (if hex(value).len() < width {
            width
        } else {
            hex(value).len() as int
        }),
{
    law_hexadecimal_digits_are_read_back(value);
    let missing = width - hex(value).len();
    lemma_zeros(missing);
    lemma_leading_zeros(missing, hex(value));
}

proof fn lemma_zeros(count: int)
    ensures
        zeros(count).len() == (if count > 0 {
            count
        } else {
            0
        }),
    decreases count,
{
    if count > 0 {
        lemma_zeros(count - 1);
    }
}

proof fn lemma_leading_zeros(count: int, digits: Seq<char>)
    ensures
        digits_value(zeros(count) + digits, 16) == digits_value(digits, 16),
    decreases digits.len(), count,
{
    let whole = zeros(count) + digits;
    if digits.len() > 0 {
        lemma_leading_zeros(count, digits.drop_last());
        assert(whole.drop_last() =~= zeros(count) + digits.drop_last());
    } else if count > 0 {
        lemma_leading_zeros(count - 1, digits);
        assert(whole.drop_last() =~= zeros(count - 1) + digits);
        assert(whole.last() == '0');
    } else {
        assert(whole =~= digits);
    }
}

/// What the list says of a probe: its place and its name, its type, its serial
/// number, its two USB numbers in four hexadecimal digits each, and its interface
/// where it has one, each on a line of its own.
pub proof fn law_probes_are_described(text: Seq<u8>, probe: ProbeEntry, index: nat)
    ensures
        with_probe(text, probe, index) == text + encode_utf8("  ["@) + encode_utf8(decimal(index))
            + encode_utf8("] "@) + encode_utf8(probe.identifier@) + encode_utf8(
            "\n      Type: "@,
        ) + encode_utf8(probe.probe_type@) + encode_utf8("\n      Serial: "@) + encode_utf8(
            match probe.serial_number {
                Some(serial) => serial@,
                None => "(none)"@,
            },
        ) + encode_utf8("\n      USB: "@) + encode_utf8(padded_hex(probe.vendor_id as nat, 4))
            + encode_utf8(":"@) + encode_utf8(padded_hex(probe.product_id as nat, 4)) + (
        match probe.interface {
            Some(interface) => encode_utf8("\n      Interface: "@) + encode_utf8(
                decimal(interface as nat),
            ) + encode_utf8("\n"@),
            None => encode_utf8("\n"@),
        }),
{
    reveal_strlit("\n");
    reveal_strlit("      Type: ");
    reveal_strlit("\n      Type: ");
    reveal_strlit("      Serial: ");
    reveal_strlit("\n      Serial: ");
    reveal_strlit("      USB: ");
    reveal_strlit("\n      USB: ");
    reveal_strlit("      Interface: ");
    reveal_strlit("\n      Interface: ");
    lemma_encode_concat("\n"@, "      Type: "@);
    lemma_encode_concat("\n"@, "      Serial: "@);
    lemma_encode_concat("\n"@, "      USB: "@);
    lemma_encode_concat("\n"@, "      Interface: "@);
    assert("\n"@ + "      Type: "@ =~= "\n      Type: "@);
    assert("\n"@ + "      Serial: "@ =~= "\n      Serial: "@);
    assert("\n"@ + "      USB: "@ =~= "\n      USB: "@);
    assert("\n"@ + "      Interface: "@ =~= "\n      Interface: "@);
    let serial = match probe.serial_number {
        Some(serial) => serial@,
        None => "(none)"@,
    };
    let end = encode_utf8("\n"@);
    let named = text + encode_utf8("  ["@) + encode_utf8(decimal(index)) + encode_utf8("] "@)
        + encode_utf8(probe.identifier@);
    let typed = named + encode_utf8("\n      Type: "@) + encode_utf8(probe.probe_type@);
    let numbered = typed + encode_utf8("\n      Serial: "@) + encode_utf8(serial);
    let usb = numbered + encode_utf8("\n      USB: "@) + encode_utf8(
        padded_hex(probe.vendor_id as nat, 4),
    ) + encode_utf8(":"@) + encode_utf8(padded_hex(probe.product_id as nat, 4));
    assert(named + end + encode_utf8("      Type: "@) =~= named + encode_utf8("\n      Type: "@));
    assert(typed + end + encode_utf8("      Serial: "@) =~= typed + encode_utf8(
        "\n      Serial: "@,
    ));
    assert(numbered + end + encode_utf8("      USB: "@) =~= numbered + encode_utf8(
        "\n      USB: "@,
    ));
    if let Some(interface) = probe.interface {
        let value = encode_utf8(decimal(interface as nat));
        assert(usb + end + encode_utf8("      Interface: "@) + value + end =~= usb + (encode_utf8(
            "\n      Interface: "@,
        ) + value + end));
    }
}

/// Probes are listed in their order, with their places from zero, and an empty line
/// between two of them.
pub proof fn law_probes_are_listed(text: Seq<u8>, probes: Seq<ProbeEntry>, probe: ProbeEntry)
    ensures
        with_probes(text, seq![probe], 1) == with_probe(text, probe, 0),
        probes.len() > 0 ==> with_probes(text, probes.push(probe), probes.len() as int + 1)
            == with_probe(
            with_probes(text, probes, probes.len() as int) + encode_utf8("\n"@),
            probe,
            probes.len(),
        ),
{
    reveal_with_fuel(with_probes, 2);
    let more = probes.push(probe);
    if probes.len() > 0 {
        lemma_same_probes(text, more, probes, probes.len() - 1);
        assert(more[probes.len() - 1] == probes[probes.len() - 1]);
        assert(with_probes(text, more, probes.len() as int) == with_probes(
            text,
            probes,
            probes.len() as int,
        ) + encode_utf8("\n"@));
    }
}

proof fn lemma_same_probes(
    text: Seq<u8>,
    first: Seq<ProbeEntry>,
    second: Seq<ProbeEntry>,
    count: int,
)
    requires
        0 <= count < first.len(),
        count < second.len(),
        forall|i: int| 0 <= i < count ==> first[i] == second[i],
    ensures
        with_probes(text, first, count) == with_probes(text, second, count),
    decreases count,
{
    if count > 0 {
        lemma_same_probes(text, first, second, count - 1);
    }
}

/// A probe that is asked for by its number is taken without a question, and so is the
/// only one. Among several the user is asked, which needs a terminal.
pub proof fn law_probes_are_selected(
    count: usize,
    requested: Option<&ProbeInfo>,
    terminal: bool,
    index: usize,
    result: Result<Selection, String>,
)
    requires
        call_ensures(select, (count, requested, terminal), result),
    ensures
        requested == Some(&ProbeInfo::Number(index)) ==> (result matches Ok(selection) && selection
            == Selection::Chosen(index)),
        requested is None && count == 1 ==> (result matches Ok(selection) && selection
            == Selection::Chosen(0)),
        requested is None && count != 1 && terminal ==> (result matches Ok(selection) && selection
            == Selection::Ask),
        requested is None && count != 1 && !terminal ==> result is Err,
        requested == Some(&ProbeInfo::List) ==> result is Err,
{
}

/// The user's choice is taken where it is a number below the count, with or without
/// white space around it; every other answer is no choice.
pub proof fn law_choices_are_read(
    input: &str,
    count: usize,
    choice: Option<usize>,
    before: Seq<char>,
    value: nat,
    after: Seq<char>,
)
    requires
        call_ensures(chosen_probe, (input, count), choice),
        forall|i: int| 0 <= i < before.len() ==> is_white_space(#[trigger] before[i]),
        forall|i: int| 0 <= i < after.len() ==> is_white_space(#[trigger] after[i]),
    ensures
        input@ == before + decimal(value) + after && value < count ==> choice == Some(
            value as usize,
        ),
        input@ == before + decimal(value) + after && value >= count ==> choice is None,
        number(trimmed(input@), 10) is None ==> choice is None,
        choice matches Some(place) ==> place < count,
{
    law_decimal_digits_are_read_back(value);
    let digits = decimal(value);
    law_ascii_white_space(digits[0]);
    law_ascii_white_space(digits.last());
    law_trimming(before, digits, after);
    lemma_number_is_natural(trimmed(input@), 10);
}

/// A probe can be opened exactly where it is one of those that are there.
pub proof fn law_probes_that_exist_can_be_opened(
    number: usize,
    count: usize,
    result: Result<(), String>,
)
    requires
        call_ensures(check_probe, (number, count), result),
    ensures
        result is Ok <==> number < count,
        result matches Err(message) ==> message@ == (if count == 0 {
            "No debug probes available. Make sure your probe is plugged in, supported and up-to-date."@
        } else {
            "Probe "@ + decimal(number as nat) + " does not exist."@
        }),
{
}

/// The texts that are shown around the choice of a probe: the question names the last
/// place, a probe is called by its name and its serial number, and a session that
/// could not be opened for want of a known chip brings a hint where none was given.
pub proof fn law_probe_texts(
    count: usize,
    prompt: String,
    probe: &ProbeEntry,
    label: String,
    error: &str,
    chip_given: bool,
    chip_not_found: bool,
    message: String,
)
    requires
        count > 0,
        call_ensures(selection_prompt, (count,), prompt),
        call_ensures(probe_label, (probe,), label),
        call_ensures(session_error, (error, chip_given, chip_not_found), message),
    ensures
        prompt@ == "Select probe [0-"@ + decimal((count - 1) as nat) + "]: "@,
        probe.serial_number matches Some(serial) ==> label@ == probe.identifier@ + " "@ + serial@,
        probe.serial_number is None ==> label@ == probe.identifier@ + " "@ + "(no serial number)"@,
        chip_given || !chip_not_found ==> message@ == "Error creating debug session: "@ + error@,
        !chip_given && chip_not_found ==> message@ == "Error creating debug session: "@ + error@
            + "\nHint: Use '--chip' to specify the target chip type manually"@,
{
}

/// Only targets of sixty-four bits are refused.
pub proof fn law_narrow_targets_are_served(is_64_bit: bool, result: Result<(), String>)
    requires
        call_ensures(ensure_supported_target, (is_64_bit,), result),
    ensures
        result is Ok <==> !is_64_bit,
{
}

} // verus!
