//! Text that is cut into lines.
use vstd::prelude::*;

verus! {

/// Describes `memchr::memchr` of memchr: it finds the first place that holds the
/// byte, or none where no place does.
pub assume_specification[ memchr::memchr ](needle: u8, haystack: &[u8]) -> (found: Option<usize>)
    ensures
        match found {
            Some(index) => index < haystack@.len() && haystack@[index as int] == needle && (forall|
                i: int,
            |
                0 <= i < index ==> #[trigger] haystack@[i] != needle),
            None => forall|i: int| 0 <= i < haystack@.len() ==> #[trigger] haystack@[i] != needle,
        },
;

/// Text cut at its line feeds.
#[verifier::ext_equal]
pub struct Cut {
    /// The lines, each with the line feed that ends it.
    pub lines: Seq<Seq<u8>>,
    /// What follows the last line feed.
    pub rest: Seq<u8>,
}

/// Cuts text at its line feeds.
pub open spec fn cut(text: Seq<u8>) -> Cut
    decreases text.len(),
{
    if text.len() == 0 {
        Cut { lines: Seq::empty(), rest: Seq::empty() }
    } else {
        let before = cut(text.drop_last());
        if text.last() == 10 {
            Cut { lines: before.lines.push(before.rest.push(10u8)), rest: Seq::empty() }
        } else {
            Cut { rest: before.rest.push(text.last()), ..before }
        }
    }
}

/// The bytes of lines, one after the other.
pub open spec fn joined(lines: Seq<Seq<u8>>) -> Seq<u8>
    decreases lines.len(),
{
    if lines.len() == 0 {
        Seq::empty()
    } else {
        joined(lines.drop_last()) + lines.last()
    }
}

/// No line feed is among the bytes.
pub open spec fn in_one_line(bytes: Seq<u8>) -> bool {
    forall|i: int| 0 <= i < bytes.len() ==> #[trigger] bytes[i] != 10
}

/// The line feeds among bytes.
pub open spec fn line_feeds(bytes: Seq<u8>) -> int
    decreases bytes.len(),
{
    if bytes.len() == 0 {
        0
    } else {
        line_feeds(bytes.drop_last()) + (if bytes.last() == 10 {
            1int
        } else {
            0
        })
    }
}

/// Lines and rest together are the text.
pub proof fn law_cut_loses_nothing(text: Seq<u8>)
    ensures
        joined(cut(text).lines) + cut(text).rest == text,
    decreases text.len(),
{
    if text.len() == 0 {
        assert(joined(cut(text).lines) + cut(text).rest =~= text);
    } else {
        let before = cut(text.drop_last());
        law_cut_loses_nothing(text.drop_last());
        assert(text =~= text.drop_last().push(text.last()));
        if text.last() == 10 {
            assert(cut(text).lines.drop_last() =~= before.lines);
        }
        assert(joined(cut(text).lines) + cut(text).rest =~= (joined(before.lines)
            + before.rest).push(text.last()));
    }
}

/// Each line has one line feed, at its end; the rest has none.
pub proof fn law_cut_at_line_feeds(text: Seq<u8>)
    ensures
        in_one_line(cut(text).rest),
        forall|i: int|
            0 <= i < cut(text).lines.len() ==> {
                let line = #[trigger] cut(text).lines[i];
                line.len() > 0 && line.last() == 10 && in_one_line(line.drop_last())
            },
    decreases text.len(),
{
    if text.len() > 0 {
        law_cut_at_line_feeds(text.drop_last());
        let before = cut(text.drop_last());
        assert(before.rest.push(10u8).drop_last() =~= before.rest);
    }
}

/// Text that comes in two parts is cut as in one: what the first part leaves over
/// is put before the second.
pub proof fn law_cut_in_parts(first: Seq<u8>, second: Seq<u8>)
    ensures
        cut(first + second) == (Cut {
            lines: cut(first).lines + cut(cut(first).rest + second).lines,
            rest: cut(cut(first).rest + second).rest,
        }),
    decreases second.len(),
{
    let rest = cut(first).rest;
    if second.len() == 0 {
        assert(first + second =~= first);
        assert(rest + second =~= rest);
        law_cut_at_line_feeds(first);
        lemma_cut_one_line(Seq::empty(), rest);
        assert(Seq::<u8>::empty() + rest =~= rest);
        assert(cut(first).lines + Seq::<Seq<u8>>::empty() =~= cut(first).lines);
        assert(cut(Seq::<u8>::empty()).rest + rest =~= rest);
    } else {
        law_cut_in_parts(first, second.drop_last());
        assert((first + second).drop_last() =~= first + second.drop_last());
        assert((rest + second).drop_last() =~= rest + second.drop_last());
        let inner = cut(rest + second.drop_last());
        if second.last() == 10 {
            assert(cut(first).lines + inner.lines.push(inner.rest.push(10u8)) =~= (cut(first).lines
                + inner.lines).push(inner.rest.push(10u8)));
        }
    }
}

/// Text without a line feed is added to what is left over.
pub proof fn lemma_cut_one_line(text: Seq<u8>, more: Seq<u8>)
    requires
        in_one_line(more),
    ensures
        cut(text + more) == (Cut { rest: cut(text).rest + more, ..cut(text) }),
    decreases more.len(),
{
    if more.len() == 0 {
        assert(text + more =~= text);
        assert(cut(text).rest + more =~= cut(text).rest);
    } else {
        lemma_cut_one_line(text, more.drop_last());
        assert((text + more).drop_last() =~= text + more.drop_last());
        assert((cut(text).rest + more.drop_last()).push(more.last()) =~= cut(text).rest + more);
    }
}

} // verus!
