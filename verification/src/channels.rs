//! What is kept for each channel, in the order in which the channels were met.
use vstd::prelude::*;

verus! {

/// The place of a channel's entry among the first `end` ones.
pub open spec fn place_below<T>(entries: Seq<(u32, T)>, channel: u32, end: int) -> Option<int>
    decreases end,
{
    if end <= 0 {
        None
    } else {
        match place_below(entries, channel, end - 1) {
            Some(index) => Some(index),
            None => if entries[end - 1].0 == channel {
                Some(end - 1)
            } else {
                None
            },
        }
    }
}

/// The place of a channel's entry.
pub open spec fn place_of<T>(entries: Seq<(u32, T)>, channel: u32) -> Option<int> {
    place_below(entries, channel, entries.len() as int)
}

/// What is kept for a channel, or `missing` where it has not been met.
pub open spec fn entry_or<T>(entries: Seq<(u32, T)>, channel: u32, missing: T) -> T {
    match place_of(entries, channel) {
        Some(index) => entries[index].1,
        None => missing,
    }
}

/// The entries when `value` is kept for a channel: its old entry is replaced, a
/// new one comes last.
pub open spec fn with_entry<T>(entries: Seq<(u32, T)>, channel: u32, value: T) -> Seq<(u32, T)> {
    match place_of(entries, channel) {
        Some(index) => entries.update(index, (channel, value)),
        None => entries.push((channel, value)),
    }
}

/// No channel has two entries.
pub open spec fn one_each<T>(entries: Seq<(u32, T)>) -> bool {
    forall|i: int, j: int|
        0 <= i < j < entries.len() ==> (#[trigger] entries[i]).0 != (#[trigger] entries[j]).0
}

/// The place that is found holds the channel, and no earlier one does; where none
/// is found, none holds it.
pub proof fn lemma_place<T>(entries: Seq<(u32, T)>, channel: u32, end: int)
    requires
        0 <= end <= entries.len(),
    ensures
        match place_below(entries, channel, end) {
            Some(index) => 0 <= index < end && entries[index].0 == channel,
            None => forall|i: int| 0 <= i < end ==> (#[trigger] entries[i]).0 != channel,
        },
    decreases end,
{
    if end > 0 {
        lemma_place(entries, channel, end - 1);
    }
}

/// Places depend on the channels alone.
pub proof fn lemma_same_places<T, U>(
    first: Seq<(u32, T)>,
    second: Seq<(u32, U)>,
    channel: u32,
    end: int,
)
    requires
        0 <= end <= first.len(),
        first.len() == second.len(),
        forall|i: int| 0 <= i < first.len() ==> (#[trigger] first[i]).0 == second[i].0,
    ensures
        place_below(first, channel, end) == place_below(second, channel, end),
    decreases end,
{
    if end > 0 {
        lemma_same_places(first, second, channel, end - 1);
        assert(first[end - 1].0 == second[end - 1].0);
    }
}

/// Keeping a value for a channel gives no channel a second entry, and the value
/// is what is kept afterwards; the other channels keep theirs.
pub proof fn law_kept_entry<T>(entries: Seq<(u32, T)>, channel: u32, value: T, other: u32, missing: T)
    requires
        one_each(entries),
    ensures
        one_each(with_entry(entries, channel, value)),
        entry_or(with_entry(entries, channel, value), channel, missing) == value,
        other != channel ==> entry_or(with_entry(entries, channel, value), other, missing)
            == entry_or(entries, other, missing),
{
    let after = with_entry(entries, channel, value);
    lemma_place(entries, channel, entries.len() as int);
    lemma_place(after, channel, after.len() as int);
    lemma_place(entries, other, entries.len() as int);
    lemma_place(after, other, after.len() as int);
    if let Some(index) = place_of(entries, channel) {
        assert(after[index].0 == channel);
    } else {
        assert(after[entries.len() as int].0 == channel);
    }
    if other != channel {
        if let Some(index) = place_of(entries, other) {
            assert(after[index] == entries[index]);
        }
        if let Some(index) = place_of(after, other) {
            assert(after[index] == entries[index]);
        }
    }
}

/// Of two values that are kept for a channel one after the other the second one
/// counts.
pub proof fn law_last_entry_counts<T>(entries: Seq<(u32, T)>, channel: u32, first: T, second: T)
    requires
        one_each(entries),
    ensures
        with_entry(with_entry(entries, channel, first), channel, second) == with_entry(
            entries,
            channel,
            second,
        ),
{
    let after = with_entry(entries, channel, first);
    lemma_place(entries, channel, entries.len() as int);
    lemma_place(after, channel, after.len() as int);
    match place_of(entries, channel) {
        Some(index) => {
            let place = place_of(after, channel)->0;
            assert(after[index].0 == channel);
            if place != index {
                assert(after[place] == entries[place]);
                assert(entries[place].0 == channel && entries[index].0 == channel);
            }
        },
        None => {
            let place = place_of(after, channel)->0;
            assert(after[entries.len() as int].0 == channel);
            if place != entries.len() {
                assert(after[place] == entries[place]);
            }
        },
    }
    assert(with_entry(after, channel, second) =~= with_entry(entries, channel, second));
}

/// Finds a channel's entry.
pub fn find_channel<T>(entries: &Vec<(u32, T)>, channel: u32) -> (place: Option<usize>)
    ensures
        match place {
            Some(index) => place_of(entries@, channel) == Some(index as int) && index < entries@.len()
                && entries@[index as int].0 == channel,
            None => place_of(entries@, channel) is None,
        },
{
    let mut index: usize = 0;
    while index < entries.len()
        invariant
            index <= entries@.len(),
            place_below(entries@, channel, index as int) is None,
        decreases entries@.len() - index,
    {
        if entries[index].0 == channel {
            assert(place_below(entries@, channel, index + 1) == Some(index as int));
            proof {
                lemma_found(entries@, channel, index + 1, entries@.len() as int);
            }
            return Some(index);
        }
        index += 1;
    }
    None
}

proof fn lemma_found<T>(entries: Seq<(u32, T)>, channel: u32, end: int, longer: int)
    requires
        0 <= end <= longer,
        place_below(entries, channel, end) is Some,
    ensures
        place_below(entries, channel, longer) == place_below(entries, channel, end),
    decreases longer - end,
{
    if end < longer {
        lemma_found(entries, channel, end, longer - 1);
    }
}

/// What is kept for a channel is its entry, and for one that has none what is given
/// for that case. A first entry comes behind all others; a later one takes the place
/// of the channel's own.
pub proof fn law_entries_are_found<T>(
    entries: Seq<(u32, T)>,
    channel: u32,
    value: T,
    missing: T,
    i: int,
)
    requires
        one_each(entries),
    ensures
        0 <= i < entries.len() && entries[i].0 == channel ==> entry_or(entries, channel, missing)
            == entries[i].1 && with_entry(entries, channel, value) == entries.update(
            i,
            (channel, value),
        ),
        (forall|j: int| 0 <= j < entries.len() ==> (#[trigger] entries[j]).0 != channel)
            ==> entry_or(entries, channel, missing) == missing && with_entry(
            entries,
            channel,
            value,
        ) == entries.push((channel, value)),
{
    lemma_place(entries, channel, entries.len() as int);
    if let Some(place) = place_of(entries, channel) {
        if 0 <= i < entries.len() && entries[i].0 == channel && place != i {
            assert(entries[place].0 == entries[i].0);
        }
    }
}

} // verus!
