//! Levels of defmt messages, and the filters that hold messages back.
use crate::parse::{
    is_text, law_trimming, pieces, pieces_view, same_chars, slice_of, split, trim, trimmed,
};
use crate::text::{between, char_is_white_space, from_chars, is_white_space, to_chars};
use vstd::prelude::*;

verus! {

/// How grave a defmt message is.
#[derive(Debug, Clone, Copy, PartialEq, Eq, Structural)]
pub enum Level {
    Trace,
    Debug,
    Info,
    Warn,
    Error,
}

/// The order of the levels.
pub open spec fn rank(level: Level) -> int {
    match level {
        Level::Trace => 0,
        Level::Debug => 1,
        Level::Info => 2,
        Level::Warn => 3,
        Level::Error => 4,
    }
}

fn level_rank(level: Level) -> (result: u8)
    ensures
        result == rank(level),
{
    match level {
        Level::Trace => 0,
        Level::Debug => 1,
        Level::Info => 2,
        Level::Warn => 3,
        Level::Error => 4,
    }
}

/// The name of a level.
pub open spec fn level_text(level: Level) -> Seq<char> {
    match level {
        Level::Trace => "trace"@,
        Level::Debug => "debug"@,
        Level::Info => "info"@,
        Level::Warn => "warn"@,
        Level::Error => "error"@,
    }
}

/// The name of a level.
pub fn level_name(level: Level) -> (name: &'static str)
    ensures
        name@ == level_text(level),
{
    match level {
        Level::Trace => "trace",
        Level::Debug => "debug",
        Level::Info => "info",
        Level::Warn => "warn",
        Level::Error => "error",
    }
}

/// A level is at least as grave as the minimum.
pub fn level_enabled(level: Level, minimum: Level) -> (enabled: bool)
    ensures
        enabled <==> rank(level) >= rank(minimum),
{
    level_rank(level) >= level_rank(minimum)
}

/// An ASCII capital as a small letter; any other character as it is.
pub open spec fn lower(character: char) -> char {
    if 'A' <= character <= 'Z' {
        (character as u32 + 32) as char
    } else {
        character
    }
}

/// A text with its ASCII capitals as small letters.
pub open spec fn lowered(text: Seq<char>) -> Seq<char> {
    text.map_values(|character: char| lower(character))
}

fn to_lower(text: &[char]) -> (result: Vec<char>)
    ensures
        result@ == lowered(text@),
{
    let mut result: Vec<char> = Vec::new();
    let mut index: usize = 0;
    while index < text.len()
        invariant
            index <= text@.len(),
            result@ == lowered(text@.take(index as int)),
        decreases text@.len() - index,
    {
        let character = text[index];
        let small = if 'A' <= character && character <= 'Z' {
            (character as u8 + 32) as char
        } else {
            character
        };
        result.push(small);
        assert(lowered(text@.take(index + 1)) =~= lowered(text@.take(index as int)).push(
            lower(character),
        ));
        index += 1;
    }
    assert(text@.take(text@.len() as int) =~= text@);
    result
}

/// The level that a text names, in any case.
pub open spec fn named_level(text: Seq<char>) -> Option<Level> {
    let name = lowered(text);
    if name == "trace"@ {
        Some(Level::Trace)
    } else if name == "debug"@ {
        Some(Level::Debug)
    } else if name == "info"@ {
        Some(Level::Info)
    } else if name == "warn"@ || name == "warning"@ {
        Some(Level::Warn)
    } else if name == "error"@ {
        Some(Level::Error)
    } else {
        None
    }
}

/// What is said of a text that names no level.
pub open spec fn level_error(text: Seq<char>) -> Seq<char> {
    "invalid defmt level '"@ + text + "', expected trace, debug, info, warn, or error"@
}

/// Reads the name of a level.
pub fn parse_filter_level(value: &[char]) -> (result: Result<Level, String>)
    ensures
        match result {
            Ok(level) => named_level(value@) == Some(level),
            Err(message) => named_level(value@) is None && message@ == level_error(value@),
        },
{
    let name = to_lower(value);
    if is_text(&name, "trace") {
        Ok(Level::Trace)
    } else if is_text(&name, "debug") {
        Ok(Level::Debug)
    } else if is_text(&name, "info") {
        Ok(Level::Info)
    } else if is_text(&name, "warn") || is_text(&name, "warning") {
        Ok(Level::Warn)
    } else if is_text(&name, "error") {
        Ok(Level::Error)
    } else {
        let text = from_chars(value);
        Err(
            between(
                "invalid defmt level '",
                text.as_str(),
                "', expected trace, debug, info, warn, or error",
            ),
        )
    }
}

/// A parsed defmt filter entry: a module prefix with a minimum level.
#[derive(Debug, Clone)]
pub struct Filter {
    pub module: String,
    pub level: Level,
}

/// A filter as a value.
pub struct FilterView {
    pub module: Seq<char>,
    pub level: Level,
}

impl View for Filter {
    type V = FilterView;

    open spec fn view(&self) -> FilterView {
        FilterView { module: self.module@, level: self.level }
    }
}

impl FilterView {
    /// A filter is meant for a module: for every one where it names none, else for
    /// the one that it names and those below it.
    pub open spec fn matches(self, module: Option<Seq<char>>) -> bool {
        self.module.len() == 0 || match module {
            Some(module) => module == self.module || (self.module.is_prefix_of(module)
                && "::"@.is_prefix_of(module.skip(self.module.len() as int))),
            None => false,
        }
    }
}

/// A module name, where there is one.
pub open spec fn module_view(module: Option<&str>) -> Option<Seq<char>> {
    match module {
        Some(module) => Some(module@),
        None => None,
    }
}

fn starts_with(text: &[char], prefix: &[char]) -> (starts: bool)
    ensures
        starts <==> prefix@.is_prefix_of(text@),
{
    if prefix.len() > text.len() {
        return false;
    }
    let front = slice_of(text, 0, prefix.len());
    assert(prefix@.is_prefix_of(text@) <==> prefix@ == text@.subrange(0, prefix@.len() as int));
    same_chars(prefix, &front)
}

impl Filter {
    /// Decides whether the filter is meant for a module.
    pub fn matches(&self, module: Option<&str>) -> (result: bool)
        ensures
            result == self@.matches(module_view(module)),
    {
        let own = to_chars(self.module.as_str());
        if own.len() == 0 {
            return true;
        }
        match module {
            Some(module) => {
                let other = to_chars(module);
                if same_chars(&other, &own) {
                    return true;
                }
                if !starts_with(&other, &own) {
                    return false;
                }
                let rest = slice_of(&other, own.len(), other.len());
                assert(rest@ =~= other@.skip(own@.len() as int));
                let separator = to_chars("::");
                starts_with(&rest, &separator)
            },
            None => false,
        }
    }
}

/// Filters as values.
pub open spec fn filters_view(filters: Seq<Filter>) -> Seq<FilterView> {
    filters.map_values(|filter: Filter| filter@)
}

/// The place of the filter that decides for a module, among the first `count`: the
/// last of those that are meant for it with the longest name.
pub open spec fn deciding(
    filters: Seq<FilterView>,
    module: Option<Seq<char>>,
    count: int,
) -> Option<int>
    decreases count,
{
    if count <= 0 {
        None
    } else {
        let before = deciding(filters, module, count - 1);
        let longest: nat = match before {
            Some(index) => filters[index].module.len(),
            None => 0,
        };
        if filters[count - 1].matches(module) && filters[count - 1].module.len() >= longest {
            Some(count - 1)
        } else {
            before
        }
    }
}

/// The least level that is shown for a module.
pub open spec fn minimum_level(filters: Seq<FilterView>, module: Option<Seq<char>>) -> Level {
    match deciding(filters, module, filters.len() as int) {
        Some(index) => filters[index].level,
        None => Level::Trace,
    }
}

/// Finds the least level that is shown for a module.
pub fn filter_level(module: Option<&str>, filters: &[Filter]) -> (level: Level)
    ensures
        level == minimum_level(filters_view(filters@), module_view(module)),
{
    let ghost all = filters_view(filters@);
    let ghost wanted = module_view(module);
    let mut selected = Level::Trace;
    let mut longest: usize = 0;
    let mut index: usize = 0;
    while index < filters.len()
        invariant
            index <= filters@.len(),
            all == filters_view(filters@),
            wanted == module_view(module),
            match deciding(all, wanted, index as int) {
                Some(place) => 0 <= place < index && selected == all[place].level && longest
                    == all[place].module.len(),
                None => selected == Level::Trace && longest == 0,
            },
        decreases filters@.len() - index,
    {
        assert(all[index as int] == filters@[index as int]@);
        let own = to_chars(filters[index].module.as_str());
        if filters[index].matches(module) && own.len() >= longest {
            selected = filters[index].level;
            longest = own.len();
        }
        index += 1;
    }
    selected
}

/// No filter that is meant for a module has a longer name than the one that
/// decides, and of those with the same name the last decides. Where none is meant
/// for it, every level is shown.
pub proof fn law_longest_name_decides(filters: Seq<FilterView>, module: Option<Seq<char>>, i: int)
    requires
        0 <= i < filters.len(),
        filters[i].matches(module),
    ensures
        ({
            let place = deciding(filters, module, filters.len() as int);
            &&& place is Some
            &&& 0 <= place->0 < filters.len()
            &&& filters[place->0].matches(module)
            &&& filters[i].module.len() <= filters[place->0].module.len()
            &&& filters[i].module.len() == filters[place->0].module.len() ==> i <= place->0
        }),
{
    lemma_deciding(filters, module, filters.len() as int, i);
}

proof fn lemma_deciding(
    filters: Seq<FilterView>,
    module: Option<Seq<char>>,
    count: int,
    i: int,
)
    requires
        0 <= i < count <= filters.len(),
        filters[i].matches(module),
    ensures
        ({
            let place = deciding(filters, module, count);
            &&& place is Some
            &&& 0 <= place->0 < count
            &&& filters[place->0].matches(module)
            &&& filters[i].module.len() <= filters[place->0].module.len()
            &&& filters[i].module.len() == filters[place->0].module.len() ==> i <= place->0
        }),
    decreases count,
{
    if i < count - 1 {
        lemma_deciding(filters, module, count - 1, i);
    } else {
        lemma_deciding_range(filters, module, count - 1);
    }
}

proof fn lemma_deciding_range(filters: Seq<FilterView>, module: Option<Seq<char>>, count: int)
    requires
        0 <= count <= filters.len(),
    ensures
        match deciding(filters, module, count) {
            Some(place) => 0 <= place < count && filters[place].matches(module),
            None => forall|i: int| 0 <= i < count ==> !(#[trigger] filters[i]).matches(module),
        },
    decreases count,
{
    if count > 0 {
        lemma_deciding_range(filters, module, count - 1);
    }
}

/// Without a filter that is meant for a module, every level is shown.
pub proof fn law_unfiltered_modules_are_shown(
    filters: Seq<FilterView>,
    module: Option<Seq<char>>,
    level: Level,
)
    requires
        forall|i: int| 0 <= i < filters.len() ==> !(#[trigger] filters[i]).matches(module),
    ensures
        rank(level) >= rank(minimum_level(filters, module)),
{
    lemma_deciding_range(filters, module, filters.len() as int);
}

/// A name that goes on otherwise than with `::` is another module.
pub proof fn law_names_match_whole(filter: FilterView, rest: Seq<char>)
    requires
        filter.module.len() > 0,
        rest.len() > 0,
        rest[0] != ':',
    ensures
        filter.matches(Some(filter.module)),
        filter.matches(Some(filter.module + "::"@ + rest)),
        !filter.matches(Some(filter.module + rest)),
{
    reveal_strlit("::");
    let below = filter.module + "::"@ + rest;
    assert(below.skip(filter.module.len() as int) =~= "::"@ + rest);
    assert(filter.module.is_prefix_of(below));
    let other = filter.module + rest;
    assert(other.skip(filter.module.len() as int) =~= rest);
    assert("::"@[0] == ':');
}

/// The first place where a character stands.
pub open spec fn first_place(text: Seq<char>, character: char) -> Option<int>
    decreases text.len(),
{
    if text.len() == 0 {
        None
    } else {
        match first_place(text.drop_last(), character) {
            Some(place) => Some(place),
            None => if text.last() == character {
                Some(text.len() - 1)
            } else {
                None
            },
        }
    }
}

fn find_char(text: &[char], character: char) -> (place: Option<usize>)
    ensures
        match place {
            Some(index) => first_place(text@, character) == Some(index as int) && index
                < text@.len(),
            None => first_place(text@, character) is None,
        },
{
    let mut found: Option<usize> = None;
    let mut index: usize = 0;
    assert(text@.take(0) =~= Seq::<char>::empty());
    while index < text.len()
        invariant
            index <= text@.len(),
            match found {
                Some(place) => first_place(text@.take(index as int), character) == Some(
                    place as int,
                ) && place < text@.len(),
                None => first_place(text@.take(index as int), character) is None,
            },
        decreases text@.len() - index,
    {
        assert(text@.take(index + 1).drop_last() =~= text@.take(index as int));
        if found.is_none() && text[index] == character {
            found = Some(index);
        }
        index += 1;
    }
    assert(text@.take(text@.len() as int) =~= text@);
    found
}

/// White space is among the characters.
pub open spec fn has_white_space(text: Seq<char>) -> bool {
    exists|i: int| 0 <= i < text.len() && is_white_space(#[trigger] text[i])
}

fn contains_white_space(text: &[char]) -> (found: bool)
    ensures
        found == has_white_space(text@),
{
    let mut index: usize = 0;
    while index < text.len()
        invariant
            index <= text@.len(),
            forall|i: int| 0 <= i < index ==> !is_white_space(#[trigger] text@[i]),
        decreases text@.len() - index,
    {
        if char_is_white_space(text[index]) {
            assert(is_white_space(text@[index as int]));
            return true;
        }
        index += 1;
    }
    false
}

/// What is said of a module name with white space in it.
pub open spec fn module_error(module: Seq<char>) -> Seq<char> {
    "invalid defmt filter module '"@ + module + "': whitespace is not allowed"@
}

/// One entry of a filter text: `MODULE=LEVEL`, or a level for all modules.
pub open spec fn filter_entry(item: Seq<char>) -> Result<FilterView, Seq<char>> {
    let (module, level) = match first_place(item, '=') {
        Some(place) => (trimmed(item.take(place)), trimmed(item.skip(place + 1))),
        None => (Seq::empty(), trimmed(item)),
    };
    if has_white_space(module) {
        Err(module_error(module))
    } else {
        match named_level(level) {
            Some(level) => Ok(FilterView { module, level }),
            None => Err(level_error(level)),
        }
    }
}

/// The entries of a filter text, up to the first that is wrong. Empty ones are
/// passed over.
pub open spec fn filter_entries(items: Seq<Seq<char>>) -> Result<Seq<FilterView>, Seq<char>>
    decreases items.len(),
{
    if items.len() == 0 {
        Ok(Seq::empty())
    } else {
        match filter_entries(items.drop_last()) {
            Err(message) => Err(message),
            Ok(before) => {
                let item = trimmed(items.last());
                if item.len() == 0 {
                    Ok(before)
                } else {
                    match filter_entry(item) {
                        Ok(filter) => Ok(before.push(filter)),
                        Err(message) => Err(message),
                    }
                }
            },
        }
    }
}

/// What a filter text asks for: entries with commas between them, one at least.
pub open spec fn filter_spec(text: Seq<char>) -> Result<Seq<FilterView>, Seq<char>> {
    match filter_entries(pieces(text, ',')) {
        Ok(filters) => if filters.len() == 0 {
            Err("defmt filter cannot be empty"@)
        } else {
            Ok(filters)
        },
        Err(message) => Err(message),
    }
}

/// An entry that is wrong stays wrong, whatever follows it.
proof fn lemma_error_stays(items: Seq<Seq<char>>, count: int)
    requires
        0 <= count <= items.len(),
        filter_entries(items.take(count)) is Err,
    ensures
        filter_entries(items) == filter_entries(items.take(count)),
    decreases items.len(),
{
    if count < items.len() {
        assert(items.drop_last().take(count) =~= items.take(count));
        lemma_error_stays(items.drop_last(), count);
    } else {
        assert(items.take(count) =~= items);
    }
}

fn parse_filter_entry(item: &[char]) -> (result: Result<Filter, String>)
    ensures
        match result {
            Ok(filter) => filter_entry(item@) == Ok::<FilterView, Seq<char>>(filter@),
            Err(message) => filter_entry(item@) == Err::<FilterView, Seq<char>>(message@),
        },
{
    let (module, level) = match find_char(item, '=') {
        Some(place) => {
            let name = slice_of(item, 0, place);
            let end = item.len();
            let value = slice_of(item, place + 1, end);
            assert(name@ =~= item@.take(place as int));
            assert(value@ =~= item@.skip(place + 1));
            (trim(&name), trim(&value))
        },
        None => (Vec::new(), trim(item)),
    };
    assert(first_place(item@, '=') is None ==> module@ =~= Seq::<char>::empty());
    if contains_white_space(&module) {
        let text = from_chars(&module);
        return Err(
            between("invalid defmt filter module '", text.as_str(), "': whitespace is not allowed"),
        );
    }
    match parse_filter_level(&level) {
        Ok(level) => Ok(Filter { module: from_chars(&module), level }),
        Err(message) => Err(message),
    }
}

/// Reads a filter text.
pub fn parse_filter_spec(spec: &str) -> (result: Result<Vec<Filter>, String>)
    ensures
        match result {
            Ok(filters) => filter_spec(spec@) == Ok::<Seq<FilterView>, Seq<char>>(
                filters_view(filters@),
            ),
            Err(message) => filter_spec(spec@) == Err::<Seq<FilterView>, Seq<char>>(message@),
        },
{
    let text = to_chars(spec);
    let items = split(&text, ',');
    let ghost all = pieces_view(items@);
    let mut result: Vec<Filter> = Vec::new();
    let mut index: usize = 0;
    assert(all.take(0) =~= Seq::<Seq<char>>::empty());
    assert(filters_view(result@) =~= Seq::<FilterView>::empty());
    while index < items.len()
        invariant
            index <= items@.len(),
            all == pieces_view(items@),
            all == pieces(spec@, ','),
            filter_entries(all.take(index as int)) == Ok::<Seq<FilterView>, Seq<char>>(
                filters_view(result@),
            ),
        decreases items@.len() - index,
    {
        assert(all.take(index + 1).drop_last() =~= all.take(index as int));
        assert(all.take(index + 1).last() == items@[index as int]@);
        let item = trim(&items[index]);
        if item.len() > 0 {
            match parse_filter_entry(&item) {
                Ok(filter) => {
                    let ghost before = filters_view(result@);
                    let ghost new = filter@;
                    result.push(filter);
                    assert(filters_view(result@) =~= before.push(new));
                },
                Err(message) => {
                    proof {
                        lemma_error_stays(all, index + 1);
                    }
                    return Err(message);
                },
            }
        }
        index += 1;
    }
    assert(all.take(all.len() as int) =~= all);
    if result.len() == 0 {
        return Err("defmt filter cannot be empty".to_owned());
    }
    Ok(result)
}

/// Parsed `--defmt-filter` value.
#[derive(Debug, Clone)]
pub struct FilterSpec(pub Vec<Filter>);

/// Reads a `--defmt-filter` value.
pub fn parse_filter_spec_value(spec: &str) -> (result: Result<FilterSpec, String>)
    ensures
        match result {
            Ok(filters) => filter_spec(spec@) == Ok::<Seq<FilterView>, Seq<char>>(
                filters_view(filters.0@),
            ),
            Err(message) => filter_spec(spec@) == Err::<Seq<FilterView>, Seq<char>>(message@),
        },
{
    match parse_filter_spec(spec) {
        Ok(filters) => Ok(FilterSpec(filters)),
        Err(message) => Err(message),
    }
}

/// The levels go up from trace over debug, info and warn to error.
pub proof fn law_levels_go_up()
    ensures
        rank(Level::Trace) < rank(Level::Debug) < rank(Level::Info) < rank(Level::Warn) < rank(
            Level::Error,
        ),
{
}

/// A filter without a name is meant for every message; one with a name for its
/// module and for those whose names go on from it with `::`, and for no other.
pub proof fn law_filters_are_meant_for_their_modules(
    filter: FilterView,
    module: Option<Seq<char>>,
)
    ensures
        filter.module.len() == 0 ==> filter.matches(module),
        filter.module.len() > 0 && module is None ==> !filter.matches(module),
        filter.module.len() > 0 && module is Some ==> (filter.matches(module) <==> module->0
            == filter.module || (exists|rest: Seq<char>|
            module->0 == #[trigger] (filter.module + "::"@ + rest))),
{
    reveal_strlit("::");
    if filter.module.len() > 0 && module is Some {
        let name = module->0;
        let own = filter.module;
        if filter.matches(module) && name != own {
            let rest = name.skip(own.len() as int);
            assert(name =~= own + "::"@ + rest.skip(2)) by {
                assert forall|i: int| 0 <= i < name.len() implies name[i] == (own + "::"@
                    + rest.skip(2))[i] by {
                    if own.len() <= i < own.len() + 2 {
                        assert(rest[i - own.len()] == "::"@[i - own.len()]);
                    }
                }
            }
        }
        if exists|rest: Seq<char>| name == #[trigger] (own + "::"@ + rest) {
            let rest = choose|rest: Seq<char>| name == #[trigger] (own + "::"@ + rest);
            assert(name.skip(own.len() as int) =~= "::"@ + rest);
            assert(own.is_prefix_of(name));
        }
    }
}

/// The filter that decides for a module sets its level: the one with the longest
/// name of those that are meant for it, the last of several such.
pub proof fn law_deciding_filter_sets_the_level(
    filters: Seq<FilterView>,
    module: Option<Seq<char>>,
    i: int,
)
    requires
        0 <= i < filters.len(),
        filters[i].matches(module),
        forall|j: int|
            0 <= j < filters.len() && (#[trigger] filters[j]).matches(module)
                ==> filters[j].module.len() < filters[i].module.len() || (filters[j].module.len()
                == filters[i].module.len() && j <= i),
    ensures
        minimum_level(filters, module) == filters[i].level,
{
    law_longest_name_decides(filters, module, i);
    let place = deciding(filters, module, filters.len() as int)->0;
    assert(filters[place].matches(module));
}

/// A later filter that is meant for a module takes over from the earlier ones where
/// its name is not shorter than the one that decided; any other changes nothing.
pub proof fn law_later_filters_take_over(
    filters: Seq<FilterView>,
    module: Option<Seq<char>>,
    filter: FilterView,
)
    ensures
        !filter.matches(module) ==> minimum_level(filters.push(filter), module) == minimum_level(
            filters,
            module,
        ),
        filter.matches(module) && (forall|i: int|
            0 <= i < filters.len() && (#[trigger] filters[i]).matches(module)
                ==> filters[i].module.len() <= filter.module.len()) ==> minimum_level(
            filters.push(filter),
            module,
        ) == filter.level,
{
    let all = filters.push(filter);
    lemma_same_deciding(filters, filter, module, filters.len() as int);
    lemma_deciding_range(filters, module, filters.len() as int);
}

proof fn lemma_same_deciding(
    filters: Seq<FilterView>,
    filter: FilterView,
    module: Option<Seq<char>>,
    count: int,
)
    requires
        0 <= count <= filters.len(),
    ensures
        deciding(filters.push(filter), module, count) == deciding(filters, module, count),
    decreases count,
{
    if count > 0 {
        lemma_same_deciding(filters, filter, module, count - 1);
        lemma_deciding_range(filters, module, count - 1);
        assert(filters.push(filter)[count - 1] == filters[count - 1]);
    }
}

/// The name of a level is read back as the level, in small letters and in capitals.
pub proof fn law_level_names_are_read_back(level: Level, text: Seq<char>)
    requires
        lowered(text) == level_text(level),
    ensures
        named_level(text) == Some(level),
        named_level(level_text(level)) == Some(level),
{
    lemma_level_names();
    lemma_small_names(level);
}

proof fn lemma_level_names()
    ensures
        "trace"@.len() == 5,
        "trace"@[0] == 't' && "trace"@[1] == 'r' && "trace"@[2] == 'a' && "trace"@[3] == 'c'
            && "trace"@[4] == 'e',
        "debug"@.len() == 5,
        "debug"@[0] == 'd' && "debug"@[1] == 'e' && "debug"@[2] == 'b' && "debug"@[3] == 'u'
            && "debug"@[4] == 'g',
        "info"@.len() == 4,
        "info"@[0] == 'i' && "info"@[1] == 'n' && "info"@[2] == 'f' && "info"@[3] == 'o',
        "warn"@.len() == 4,
        "warn"@[0] == 'w' && "warn"@[1] == 'a' && "warn"@[2] == 'r' && "warn"@[3] == 'n',
        "warning"@.len() == 7,
        "error"@.len() == 5,
        "error"@[0] == 'e' && "error"@[1] == 'r' && "error"@[2] == 'r' && "error"@[3] == 'o'
            && "error"@[4] == 'r',
{
    reveal_strlit("trace");
    reveal_strlit("debug");
    reveal_strlit("info");
    reveal_strlit("warn");
    reveal_strlit("warning");
    reveal_strlit("error");
}

proof fn lemma_small_names(level: Level)
    ensures
        lowered(level_text(level)) == level_text(level),
{
    lemma_level_names();
    let text = level_text(level);
    assert(lowered(text) =~= text);
}

/// A level is read the same in capitals and small letters, and a text that is no
/// name of a level, `warning` among the names, is refused.
pub proof fn law_only_level_names_are_read(text: Seq<char>)
    ensures
        named_level(lowered(text)) == named_level(text),
        lowered(text) == "warning"@ ==> named_level(text) == Some(Level::Warn),
        named_level(text) matches Some(level) ==> lowered(text) == level_text(level) || (level
            == Level::Warn && lowered(text) == "warning"@),
{
    assert(lowered(lowered(text)) =~= lowered(text));
    lemma_level_names();
}

proof fn lemma_first_place(text: Seq<char>, character: char)
    ensures
        match first_place(text, character) {
            Some(place) => 0 <= place < text.len() && text[place] == character && (forall|i: int|
                0 <= i < place ==> #[trigger] text[i] != character),
            None => forall|i: int| 0 <= i < text.len() ==> #[trigger] text[i] != character,
        },
    decreases text.len(),
{
    if text.len() > 0 {
        let front = text.drop_last();
        lemma_first_place(front, character);
        match first_place(front, character) {
            Some(place) => {
                assert(front[place] == text[place]);
                assert forall|i: int| 0 <= i < place implies #[trigger] text[i] != character by {
                    assert(front[i] == text[i]);
                }
            },
            None => {
                assert forall|i: int| 0 <= i < front.len() implies #[trigger] text[i]
                    != character by {
                    assert(front[i] == text[i]);
                }
            },
        }
    }
}

/// An entry `MODULE=LEVEL`, with or without white space around its parts, is a filter
/// for the module; a level alone is one for all modules. A name with white space in
/// it and a wrong level are refused.
pub proof fn law_filter_entries_are_read(
    module: Seq<char>,
    level: Seq<char>,
    space: Seq<char>,
)
    requires
        module.len() > 0,
        !module.contains('='),
        !is_white_space(module[0]) && !is_white_space(module.last()),
        level.len() > 0,
        !is_white_space(level[0]) && !is_white_space(level.last()),
        forall|i: int|
            0 <= i < space.len() ==> is_white_space(#[trigger] space[i]) && space[i] != '=',
    ensures
        ({
            let entry = filter_entry(module + space + seq!['='] + space + level);
            &&& has_white_space(module) ==> entry == Err::<FilterView, Seq<char>>(
                "invalid defmt filter module '"@ + module + "': whitespace is not allowed"@,
            )
            &&& !has_white_space(module) ==> match named_level(level) {
                Some(found) => entry == Ok::<FilterView, Seq<char>>(
                    FilterView { module, level: found },
                ),
                None => entry == Err::<FilterView, Seq<char>>(
                    "invalid defmt level '"@ + level
                        + "', expected trace, debug, info, warn, or error"@,
                ),
            }
        }),
        !level.contains('=') ==> match named_level(level) {
            Some(found) => filter_entry(level) == Ok::<FilterView, Seq<char>>(
                FilterView { module: Seq::empty(), level: found },
            ),
            None => filter_entry(level) is Err,
        },
{
    let item = module + space + seq!['='] + space + level;
    let place: int = (module.len() + space.len()) as int;
    lemma_first_place(item, '=');
    assert(item[place] == '=');
    assert forall|i: int| 0 <= i < place implies #[trigger] item[i] != '=' by {
        if i < module.len() {
            assert(item[i] == module[i]);
            assert(module.contains(module[i]));
        } else {
            assert(item[i] == space[i - module.len()]);
        }
    }
    assert(first_place(item, '=') == Some(place as int));
    let nothing = Seq::<char>::empty();
    assert(item.take(place as int) =~= nothing + module + space);
    assert(item.skip(place + 1) =~= space + level + nothing);
    law_trimming(nothing, module, space);
    law_trimming(space, level, nothing);
    if !level.contains('=') {
        lemma_first_place(level, '=');
        if let Some(found) = first_place(level, '=') {
            assert(level.contains(level[found]));
        }
        assert(nothing + level + nothing =~= level);
        law_trimming(nothing, level, nothing);
        assert(!has_white_space(nothing));
    }
}

/// The entries of a filter text stand in its order, empty ones are passed over, the
/// first wrong one spoils the text, and a text without an entry is refused.
pub proof fn law_filter_texts_are_read(items: Seq<Seq<char>>, item: Seq<char>)
    ensures
        filter_entries(Seq::empty()) == Ok::<Seq<FilterView>, Seq<char>>(Seq::empty()),
        match filter_entries(items) {
            Err(message) => filter_entries(items.push(item)) == Err::<Seq<FilterView>, Seq<char>>(
                message,
            ),
            Ok(before) => if trimmed(item).len() == 0 {
                filter_entries(items.push(item)) == Ok::<Seq<FilterView>, Seq<char>>(before)
            } else {
                match filter_entry(trimmed(item)) {
                    Ok(filter) => filter_entries(items.push(item)) == Ok::<
                        Seq<FilterView>,
                        Seq<char>,
                    >(before.push(filter)),
                    Err(message) => filter_entries(items.push(item)) == Err::<
                        Seq<FilterView>,
                        Seq<char>,
                    >(message),
                }
            },
        },
{
    assert(items.push(item).drop_last() =~= items);
}

/// A filter text is cut at its commas.
pub proof fn law_filter_texts_are_cut_at_commas(text: Seq<char>)
    ensures
        match filter_entries(pieces(text, ',')) {
            Ok(filters) => filters.len() > 0 ==> filter_spec(text) == Ok::<
                Seq<FilterView>,
                Seq<char>,
            >(filters),
            Err(message) => filter_spec(text) == Err::<Seq<FilterView>, Seq<char>>(message),
        },
        filter_spec(text) matches Ok(filters) ==> filters.len() > 0,
        filter_entries(pieces(text, ',')) == Ok::<Seq<FilterView>, Seq<char>>(Seq::empty())
            ==> filter_spec(text) == Err::<Seq<FilterView>, Seq<char>>(
            "defmt filter cannot be empty"@,
        ),
{
}

/// A level is shown where it is no lower than the least one.
pub proof fn law_levels_are_shown_from_the_least(level: Level, minimum: Level, enabled: bool)
    requires
        call_ensures(level_enabled, (level, minimum), enabled),
    ensures
        enabled <==> rank(level) >= rank(minimum),
        minimum == Level::Trace ==> enabled,
        level == Level::Error ==> enabled,
        level == minimum ==> enabled,
        level == Level::Trace && minimum != Level::Trace ==> !enabled,
{
}

} // verus!
