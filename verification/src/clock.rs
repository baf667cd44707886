//! Time stamps of lines.
//!
//! A moment is the local wall clock in nanoseconds since the start of 1970.
use crate::text::{lemma_encode_concat, push_str};
use vstd::prelude::*;
use vstd::utf8::*;

verus! {

/// The text that chrono makes of a moment by a format.
pub uninterp spec fn wall_text(nanos: i64, format: Seq<char>) -> Seq<char>;

/// Calls `DateTime::from_timestamp_nanos` of chrono, which takes every number,
/// and `DateTime::format`. The text depends on the moment and the format alone.
#[verifier::external_body]
fn format_wall(nanos: i64, format: &str) -> (text: String)
    requires
        format@ == "%Y-%m-%d %H:%M:%S%.3f"@,
    ensures
        text@ == wall_text(nanos, format@),
{
    chrono::DateTime::from_timestamp_nanos(nanos).format(format).to_string()
}

/// The stamp in front of a line: date and time to the millisecond, in brackets.
pub open spec fn stamp(wall: i64) -> Seq<u8> {
    encode_utf8("["@) + encode_utf8(wall_text(wall, "%Y-%m-%d %H:%M:%S%.3f"@)) + encode_utf8(
        "] "@,
    )
}

/// Writes the stamp of a moment.
pub fn push_stamp(output: &mut Vec<u8>, wall: i64)
    ensures
        final(output)@ == old(output)@ + stamp(wall),
{
    let text = format_wall(wall, "%Y-%m-%d %H:%M:%S%.3f");
    push_str(output, "[");
    push_str(output, text.as_str());
    push_str(output, "] ");
    assert(output@ =~= old(output)@ + stamp(wall));
}

/// A stamp is the moment's date and time, to the millisecond, in brackets and with a
/// space behind.
pub proof fn law_stamps_are_bracketed(wall: i64)
    ensures
        stamp(wall) == encode_utf8("["@ + wall_text(wall, "%Y-%m-%d %H:%M:%S%.3f"@) + "] "@),
{
    lemma_encode_concat("["@ + wall_text(wall, "%Y-%m-%d %H:%M:%S%.3f"@), "] "@);
    lemma_encode_concat("["@, wall_text(wall, "%Y-%m-%d %H:%M:%S%.3f"@));
}

} // verus!
