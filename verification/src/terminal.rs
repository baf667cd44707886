//! One line of a terminal, as escape sequences and control characters shape it.
use crate::lines::{in_one_line, line_feeds};
use crate::text::{lemma_encode_concat, lines_view, push_char, push_chars};
use unicode_width::UnicodeWidthChar;
use vstd::prelude::*;
use vstd::utf8::*;

verus! {

/// The most columns that a line holds.
pub const MAX_TERMINAL_COLUMNS: usize = 4096;

/// The most combining marks that a column holds.
pub const MAX_COMBINING_MARKS: usize = 16;

/// What the byte stream asks of the terminal.
#[derive(Debug, Clone, Copy, PartialEq, Eq)]
pub enum TermAction {
    /// Show a character at the cursor.
    Print(char),
    /// Perform a control function.
    Execute(u8),
    /// Perform a control sequence, with its first parameter.
    Csi { parameter: Option<u16>, action: char },
}

/// The escape-sequence parser of the `vte` crate.
#[verifier::external_type_specification]
#[verifier::external_body]
pub struct ExParser<const N: usize>(vte::Parser<N>);

/// The parameter list of a control sequence, of the `vte` crate.
#[verifier::external_type_specification]
#[verifier::external_body]
pub struct ExParams(vte::Params);

/// The chunks of bytes that a parser has been handed since it was made.
pub uninterp spec fn parser_feed(parser: vte::Parser) -> Seq<Seq<u8>>;

/// What `vte::Parser::advance` asks of its performer for one more chunk of
/// bytes, after the chunks of `feed`.
pub uninterp spec fn terminal_actions(feed: Seq<Seq<u8>>, bytes: Seq<u8>) -> Seq<TermAction>;

/// The parameters of a control sequence, each with its subparameters.
pub uninterp spec fn parameter_list(params: vte::Params) -> Seq<Seq<u16>>;

/// The first value of the first parameter.
pub open spec fn first_value(list: Seq<Seq<u16>>) -> Option<u16> {
    if list.len() > 0 && list[0].len() > 0 {
        Some(list[0][0])
    } else {
        None
    }
}

/// Bytes that are ASCII and start no escape sequence.
pub open spec fn is_plain(bytes: Seq<u8>) -> bool {
    forall|i: int| 0 <= i < bytes.len() ==> #[trigger] bytes[i] < 0x80 && bytes[i] != 0x1b
}

/// The request that a plain byte makes: a control function below the space, else
/// a character.
pub open spec fn plain_action(byte: u8) -> TermAction {
    if byte < 0x20 {
        TermAction::Execute(byte)
    } else {
        TermAction::Print(byte as char)
    }
}

/// The requests that plain bytes make, one for each byte.
pub open spec fn plain_actions(bytes: Seq<u8>) -> Seq<TermAction> {
    bytes.map_values(|byte: u8| plain_action(byte))
}

/// Plain bytes that follow plain ones make one request each.
pub open spec fn plain_is_taken_plainly(feed: Seq<Seq<u8>>, bytes: Seq<u8>) -> bool {
    is_plain(bytes) && (forall|i: int| 0 <= i < feed.len() ==> is_plain(#[trigger] feed[i]))
        ==> terminal_actions(feed, bytes) == plain_actions(bytes)
}

/// Bytes that are ASCII.
pub open spec fn is_seven_bit(bytes: Seq<u8>) -> bool {
    forall|i: int| 0 <= i < bytes.len() ==> #[trigger] bytes[i] < 0x80
}

/// Bytes that come in two chunks make the requests that they make in one.
pub open spec fn may_be_cut(feed: Seq<Seq<u8>>, first: Seq<u8>, second: Seq<u8>) -> bool {
    terminal_actions(feed, first + second) == terminal_actions(feed, first) + terminal_actions(
        feed.push(first),
        second,
    )
}

/// ASCII bytes make the same requests however they are cut.
pub open spec fn ascii_may_be_cut(feed: Seq<Seq<u8>>, bytes: Seq<u8>) -> bool {
    is_seven_bit(bytes) ==> forall|first: Seq<u8>, second: Seq<u8>|
        bytes == first + second ==> #[trigger] may_be_cut(feed, first, second)
}

/// The printable ASCII characters among requests take one column each.
pub open spec fn ascii_is_narrow(actions: Seq<TermAction>) -> bool {
    forall|i: int|
        0 <= i < actions.len() ==> ((#[trigger] actions[i]) matches TermAction::Print(character)
            ==> ' ' <= character <= '~' ==> char_columns(character) == Some(1usize))
}

/// No request prints a control function below the space.
pub open spec fn prints_visibly(actions: Seq<TermAction>) -> bool {
    forall|i: int|
        0 <= i < actions.len() ==> ((#[trigger] actions[i]) matches TermAction::Print(character)
            ==> ' ' <= character)
}

/// The line feeds that requests execute.
pub open spec fn executed_line_feeds(actions: Seq<TermAction>) -> int
    decreases actions.len(),
{
    if actions.len() == 0 {
        0
    } else {
        executed_line_feeds(actions.drop_last()) + (if actions.last() == TermAction::Execute(10u8) {
            1int
        } else {
            0
        })
    }
}

/// What is known of a chunk that has been taken in: plain bytes make one request
/// each, ASCII bytes may be cut anywhere, printable ASCII characters take one column
/// each, no control function is printed, and a line feed is executed only where
/// there is one.
pub open spec fn chunk_is_known(feed: Seq<Seq<u8>>, bytes: Seq<u8>) -> bool {
    &&& plain_is_taken_plainly(feed, bytes)
    &&& ascii_may_be_cut(feed, bytes)
    &&& ascii_is_narrow(terminal_actions(feed, bytes))
    &&& prints_visibly(terminal_actions(feed, bytes))
    &&& executed_line_feeds(terminal_actions(feed, bytes)) <= line_feeds(bytes)
}

/// Calls `vte::Parser::new`: a parser that has been handed nothing.
#[verifier::external_body]
fn new_parser() -> (parser: vte::Parser)
    ensures
        parser_feed(parser) == Seq::<Seq<u8>>::empty(),
{
    vte::Parser::new()
}

/// Calls `vte::Params::iter` for the first value of the first parameter.
#[verifier::external_body]
fn first_parameter(params: &vte::Params) -> (first: Option<u16>)
    ensures
        first == first_value(parameter_list(*params)),
{
    params.iter().next().and_then(|values| values.first().copied())
}

/// Notes down what the parser asks of it.
pub struct Recorder {
    pub actions: Vec<TermAction>,
}

impl vte::Perform for Recorder {
    fn print(&mut self, character: char)
        ensures
            final(self).actions@ == old(self).actions@.push(TermAction::Print(character)),
    {
        self.actions.push(TermAction::Print(character));
    }

    fn execute(&mut self, byte: u8)
        ensures
            final(self).actions@ == old(self).actions@.push(TermAction::Execute(byte)),
    {
        self.actions.push(TermAction::Execute(byte));
    }

    fn csi_dispatch(
        &mut self,
        params: &vte::Params,
        _intermediates: &[u8],
        _ignore: bool,
        action: char,
    )
        ensures
            final(self).actions@ == old(self).actions@.push(
                (TermAction::Csi { parameter: first_value(parameter_list(*params)), action }),
            ),
    {
        let parameter = first_parameter(params);
        self.actions.push(TermAction::Csi { parameter, action });
    }
}

/// Calls `vte::Parser::advance` with one more chunk of bytes, and hands back what
/// the parser asked of its performer, in order. Plain bytes to a parser that has
/// seen only plain bytes make one request each. ASCII bytes are taken one by one,
/// and the first of them settles a character that earlier bytes left incomplete, so
/// that they make the same requests in one chunk as in two. Control functions below
/// the space are not printed, and a line feed is executed only for a line feed.
#[verifier::external_body]
fn advance(parser: &mut vte::Parser, bytes: &[u8]) -> (actions: Vec<TermAction>)
    ensures
        parser_feed(*final(parser)) == parser_feed(*old(parser)).push(bytes@),
        actions@ == terminal_actions(parser_feed(*old(parser)), bytes@),
        is_plain(bytes@) && (forall|i: int|
            0 <= i < parser_feed(*old(parser)).len() ==> is_plain(
                #[trigger] parser_feed(*old(parser))[i],
            )) ==> actions@ == plain_actions(bytes@),
        is_seven_bit(bytes@) ==> forall|first: Seq<u8>, second: Seq<u8>|
            bytes@ == first + second ==> actions@ == #[trigger] terminal_actions(
                parser_feed(*old(parser)),
                first,
            ) + #[trigger] terminal_actions(parser_feed(*old(parser)).push(first), second),
        prints_visibly(actions@),
        executed_line_feeds(actions@) <= line_feeds(bytes@),
{
    let mut recorder = Recorder { actions: Vec::new() };
    parser.advance(&mut recorder, bytes);
    recorder.actions
}

/// The columns that `UnicodeWidthChar::width` gives a character; `None` for a
/// control character.
pub uninterp spec fn char_columns(character: char) -> Option<usize>;

/// Calls `UnicodeWidthChar::width`. A printable ASCII character takes one column.
#[verifier::external_body]
fn columns_of(character: char) -> (columns: Option<usize>)
    ensures
        columns == char_columns(character),
        ' ' <= character <= '~' ==> columns == Some(1usize),
{
    UnicodeWidthChar::width(character)
}

/// A character with the combining marks that follow it.
pub struct Cell {
    pub character: char,
    pub combining: Vec<char>,
}

impl Cell {
    /// The characters of the cell.
    pub open spec fn text(self) -> Seq<char> {
        seq![self.character] + self.combining@
    }
}

/// The state of a terminal line: the text of each column, `None` where nothing
/// was written, the cursor's column, and the lines that are finished.
pub struct TermView {
    pub cells: Seq<Option<Seq<char>>>,
    pub cursor: int,
    pub complete: Seq<Seq<u8>>,
}

/// An empty line, with no line finished.
pub open spec fn blank_line() -> TermView {
    TermView { cells: Seq::empty(), cursor: 0, complete: Seq::empty() }
}

/// The index of the last written column below `end`.
pub open spec fn last_written(cells: Seq<Option<Seq<char>>>, end: int) -> Option<int>
    decreases end,
{
    if end <= 0 {
        None
    } else if cells[end - 1] is Some {
        Some(end - 1)
    } else {
        last_written(cells, end - 1)
    }
}

/// How many columns are shown: up to the last written one.
pub open spec fn shown_columns(cells: Seq<Option<Seq<char>>>) -> int {
    match last_written(cells, cells.len() as int) {
        Some(index) => index + 1,
        None => 0,
    }
}

/// The characters of the first `count` columns, a space for each unwritten one.
pub open spec fn column_text(cells: Seq<Option<Seq<char>>>, count: int) -> Seq<char>
    decreases count,
{
    if count <= 0 {
        Seq::empty()
    } else {
        column_text(cells, count - 1) + (match cells[count - 1] {
            Some(text) => text,
            None => seq![' '],
        })
    }
}

/// What a reader sees of the line.
pub open spec fn visible_text(cells: Seq<Option<Seq<char>>>) -> Seq<char> {
    column_text(cells, shown_columns(cells))
}

/// The lesser of two numbers.
pub open spec fn min_int(a: int, b: int) -> int {
    if a <= b {
        a
    } else {
        b
    }
}

impl TermView {
    /// The line as bytes, without a line end.
    pub open spec fn visible(self) -> Seq<u8> {
        encode_utf8(visible_text(self.cells))
    }

    /// Line length, cursor and marks are within their limits.
    pub open spec fn bounded(self) -> bool {
        &&& self.cells.len() <= MAX_TERMINAL_COLUMNS
        &&& 0 <= self.cursor <= MAX_TERMINAL_COLUMNS
        &&& forall|i: int|
            0 <= i < self.cells.len() && (#[trigger] self.cells[i]) is Some ==> 1
                <= self.cells[i]->0.len() <= MAX_COMBINING_MARKS + 1
    }

    /// The state after a character is printed. A character without width joins
    /// the nearest written column before the cursor, while that one has room. A
    /// character with width replaces the columns that it covers, as far as the
    /// line has them.
    pub open spec fn print(self, character: char) -> TermView {
        let width: int = match char_columns(character) {
            Some(columns) => columns as int,
            None => 0,
        };
        let end = min_int(self.cursor + width, MAX_TERMINAL_COLUMNS as int);
        if width == 0 {
            match last_written(self.cells, min_int(self.cursor, self.cells.len() as int)) {
                Some(index) if self.cells[index]->0.len() <= MAX_COMBINING_MARKS => TermView {
                    cells: self.cells.update(index, Some(self.cells[index]->0.push(character))),
                    ..self
                },
                _ => self,
            }
        } else if end <= self.cursor {
            self
        } else {
            TermView {
                cells: self.overwrite(character, end),
                cursor: end,
                ..self
            }
        }
    }

    /// The columns with `character` at the cursor and nothing from there to `end`.
    pub open spec fn overwrite(self, character: char, end: int) -> Seq<Option<Seq<char>>> {
        let length = if self.cells.len() < end {
            end as nat
        } else {
            self.cells.len()
        };
        Seq::new(
            length,
            |i: int|
                if i == self.cursor {
                    Some(seq![character])
                } else if i < self.cells.len() && !(self.cursor < i < end) {
                    self.cells[i]
                } else {
                    None
                },
        )
    }

    /// The state with the line extended to at least `length` columns.
    pub open spec fn widened(self, length: int) -> Seq<Option<Seq<char>>> {
        if self.cells.len() < length {
            Seq::new(
                length as nat,
                |i: int|
                    if i < self.cells.len() {
                        self.cells[i]
                    } else {
                        None
                    },
            )
        } else {
            self.cells
        }
    }

    /// The state after a control function: carriage return, line feed, backspace
    /// and tab act, the others do nothing.
    pub open spec fn execute(self, byte: u8) -> TermView {
        if byte == 13 {
            TermView { cursor: 0, ..self }
        } else if byte == 10 {
            TermView {
                cells: Seq::empty(),
                cursor: 0,
                complete: self.complete.push(self.visible().push(10u8)),
            }
        } else if byte == 8 {
            TermView {
                cursor: if self.cursor == 0 {
                    0
                } else {
                    self.cursor - 1
                },
                ..self
            }
        } else if byte == 9 {
            let stop = min_int(
                self.cursor + 8 - self.cursor % 8,
                MAX_TERMINAL_COLUMNS as int,
            );
            TermView { cells: self.widened(stop), cursor: stop, ..self }
        } else {
            self
        }
    }

    /// The state after a control sequence: erase in line (`K`), move the cursor
    /// (`G`, `` ` ``, `C`, `D`) and delete characters (`P`) act, the others do
    /// nothing. Without a parameter the value is 1; moving back and deleting take
    /// a zero for 1.
    pub open spec fn csi(self, parameter: Option<u16>, action: char) -> TermView {
        let value: int = match parameter {
            Some(given) => given as int,
            None => 1,
        };
        let count: int = if value == 0 {
            1
        } else {
            value
        };
        let length = self.cells.len() as int;
        if action == 'K' {
            if value == 0 {
                TermView { cells: self.cells.take(min_int(self.cursor, length)), ..self }
            } else if value == 1 {
                let end = min_int(self.cursor + 1, length);
                TermView {
                    cells: Seq::new(
                        self.cells.len(),
                        |i: int|
                            if i < end {
                                None
                            } else {
                                self.cells[i]
                            },
                    ),
                    ..self
                }
            } else if value == 2 {
                TermView { cells: Seq::empty(), ..self }
            } else {
                self
            }
        } else if action == 'G' || action == '`' {
            let column = if value == 0 {
                0
            } else {
                value - 1
            };
            TermView { cursor: min_int(column, MAX_TERMINAL_COLUMNS as int), ..self }
        } else if action == 'C' {
            TermView {
                cursor: min_int(self.cursor + value, MAX_TERMINAL_COLUMNS as int),
                ..self
            }
        } else if action == 'D' {
            TermView {
                cursor: if self.cursor < count {
                    0
                } else {
                    self.cursor - count
                },
                ..self
            }
        } else if action == 'P' {
            let start = min_int(self.cursor, length);
            let end = min_int(self.cursor + count, length);
            TermView { cells: self.cells.take(start) + self.cells.skip(end), ..self }
        } else {
            self
        }
    }

    /// The state after one request.
    pub open spec fn apply(self, action: TermAction) -> TermView {
        match action {
            TermAction::Print(character) => self.print(character),
            TermAction::Execute(byte) => self.execute(byte),
            TermAction::Csi { parameter, action } => self.csi(parameter, action),
        }
    }

    /// The state after a sequence of requests.
    pub open spec fn apply_all(self, actions: Seq<TermAction>) -> TermView
        decreases actions.len(),
    {
        if actions.len() == 0 {
            self
        } else {
            self.apply_all(actions.drop_last()).apply(actions.last())
        }
    }
}

/// The text of each column.
pub open spec fn cells_view(line: Seq<Option<Cell>>) -> Seq<Option<Seq<char>>> {
    line.map_values(
        |cell: Option<Cell>|
            match cell {
                Some(cell) => Some(cell.text()),
                None => None,
            },
    )
}

/// A stream of terminal output, decoded into lines of plain text.
pub struct DecodedStream {
    pub line: Vec<Option<Cell>>,
    pub cursor: usize,
    pub parser: vte::Parser,
    pub complete: Vec<Vec<u8>>,
    pub include_channel: bool,
}

impl View for DecodedStream {
    type V = TermView;

    open spec fn view(&self) -> TermView {
        TermView {
            cells: cells_view(self.line@),
            cursor: self.cursor as int,
            complete: lines_view(self.complete@),
        }
    }
}

impl DecodedStream {
    /// The line is within its limits.
    pub open spec fn wf(self) -> bool {
        self@.bounded()
    }

    /// The chunks that the stream has been handed.
    pub open spec fn feed(self) -> Seq<Seq<u8>> {
        parser_feed(self.parser)
    }

    /// An empty line in a stream that nothing has come through.
    pub fn new() -> (stream: Self)
        ensures
            stream.wf(),
            stream@ == blank_line(),
            stream.feed() == Seq::<Seq<u8>>::empty(),
            !stream.include_channel,
    {
        let stream = DecodedStream {
            line: Vec::new(),
            cursor: 0,
            parser: new_parser(),
            complete: Vec::new(),
            include_channel: false,
        };
        assert(stream@.cells =~= Seq::<Option<Seq<char>>>::empty());
        assert(stream@.complete =~= Seq::<Seq<u8>>::empty());
        stream
    }

    /// Forgets the line and what has come through the stream.
    pub fn reset(&mut self)
        ensures
            final(self).wf(),
            final(self)@ == blank_line(),
            final(self).feed() == Seq::<Seq<u8>>::empty(),
            final(self).include_channel == old(self).include_channel,
    {
        self.line.clear();
        self.cursor = 0;
        self.parser = new_parser();
        self.complete.clear();
        assert(self@.cells =~= Seq::<Option<Seq<char>>>::empty());
        assert(self@.complete =~= Seq::<Seq<u8>>::empty());
    }

    /// The line as a reader sees it: up to the last written column, with a space
    /// for each column before it that was skipped.
    pub fn visible_line(&self) -> (output: Vec<u8>)
        ensures
            output@ == self@.visible(),
    {
        let ghost cells = self@.cells;
        let mut end: usize = self.line.len();
        while end > 0 && self.line[end - 1].is_none()
            invariant
                end <= self.line@.len(),
                cells == self@.cells,
                last_written(cells, cells.len() as int) == last_written(cells, end as int),
            decreases end,
        {
            end -= 1;
        }
        assert(end == shown_columns(cells));
        let mut output: Vec<u8> = Vec::new();
        let mut index: usize = 0;
        while index < end
            invariant
                index <= end <= self.line@.len(),
                cells == self@.cells,
                output@ == encode_utf8(column_text(cells, index as int)),
            decreases end - index,
        {
            proof {
                let text = match cells[index as int] {
                    Some(text) => text,
                    None => seq![' '],
                };
                lemma_encode_concat(column_text(cells, index as int), text);
            }
            match &self.line[index] {
                Some(cell) => {
                    push_char(&mut output, cell.character);
                    push_chars(&mut output, cell.combining.as_slice());
                    proof {
                        lemma_encode_concat(seq![cell.character], cell.combining@);
                    }
                },
                None => push_char(&mut output, ' '),
            }
            index += 1;
        }
        output
    }

    /// Shows a character at the cursor.
    pub fn print(&mut self, character: char)
        requires
            old(self).wf(),
        ensures
            final(self).wf(),
            final(self)@ == old(self)@.print(character),
            final(self).parser == old(self).parser,
            final(self).include_channel == old(self).include_channel,
            ' ' <= character <= '~' ==> char_columns(character) == Some(1usize),
    {
        let ghost before = self@;
        proof {
            lemma_bounded(before, TermAction::Print(character));
        }
        let width: usize = match columns_of(character) {
            Some(columns) => columns,
            None => 0,
        };
        if width == 0 {
            self.add_mark(character);
            return ;
        }
        let end: usize = if width >= MAX_TERMINAL_COLUMNS - self.cursor {
            MAX_TERMINAL_COLUMNS
        } else {
            self.cursor + width
        };
        if end <= self.cursor {
            return ;
        }
        self.widen(end);
        let ghost widened = self@.cells;
        let start: usize = self.cursor;
        let cell = Cell { character, combining: Vec::new() };
        assert(cell.text() =~= seq![character]);
        self.line[start] = Some(cell);
        assert(self@.cells =~= widened.update(start as int, Some(seq![character])));
        let mut index: usize = start + 1;
        while index < end
            invariant
                start < index <= end <= self.line@.len(),
                self.cursor == start,
                self.complete == old(self).complete,
                self.parser == old(self).parser,
                self.include_channel == old(self).include_channel,
                widened.len() == self.line@.len(),
                self@.cells[start as int] == Some(seq![character]),
                forall|i: int| start < i < index ==> #[trigger] self@.cells[i] is None,
                forall|i: int|
                    0 <= i < self.line@.len() && !(start <= i < index) ==> #[trigger] self@.cells[i]
                        == widened[i],
            decreases end - index,
        {
            let ghost previous = self@.cells;
            self.line[index] = None;
            assert(self@.cells =~= previous.update(index as int, None));
            index += 1;
        }
        self.cursor = end;
        assert(self@.cells =~= before.overwrite(character, end as int));
    }

    /// Adds a character without width to the nearest written column before the
    /// cursor.
    fn add_mark(&mut self, character: char)
        requires
            char_columns(character) is None || char_columns(character) == Some(0usize),
        ensures
            final(self)@ == old(self)@.print(character),
            final(self).parser == old(self).parser,
            final(self).include_channel == old(self).include_channel,
    {
        let ghost before = self@;
        let mut end: usize = if self.cursor < self.line.len() {
            self.cursor
        } else {
            self.line.len()
        };
        let ghost limit = end as int;
        while end > 0 && self.line[end - 1].is_none()
            invariant
                end <= self.line@.len(),
                before == self@,
                *self == *old(self),
                last_written(before.cells, limit) == last_written(before.cells, end as int),
            decreases end,
        {
            end -= 1;
        }
        if end == 0 {
            return ;
        }
        let at: usize = end - 1;
        assert(last_written(before.cells, limit) == Some(at as int));
        if let Some(cell) = &mut self.line[at] {
            if cell.combining.len() < MAX_COMBINING_MARKS {
                let ghost text = cell.text();
                cell.combining.push(character);
                assert(cell.text() =~= text.push(character));
            }
        }
        assert(self@.cells =~= before.print(character).cells);
    }

    /// Extends the line to at least `length` columns.
    fn widen(&mut self, length: usize)
        ensures
            final(self)@ == (TermView { cells: old(self)@.widened(length as int), ..old(self)@ }),
            final(self).line@.len() >= length,
            final(self).cursor == old(self).cursor,
            final(self).complete == old(self).complete,
            final(self).parser == old(self).parser,
            final(self).include_channel == old(self).include_channel,
    {
        let ghost before = self@;
        while self.line.len() < length
            invariant
                old(self)@ == before,
                before.cells.len() <= self.line@.len(),
                self.line@.len() <= length || self.line@.len() == before.cells.len(),
                forall|i: int|
                    0 <= i < before.cells.len() ==> #[trigger] self@.cells[i] == before.cells[i],
                forall|i: int|
                    before.cells.len() <= i < self.line@.len() ==> #[trigger] self@.cells[i]
                        is None,
                self.cursor == old(self).cursor,
                self.complete == old(self).complete,
                self.parser == old(self).parser,
                self.include_channel == old(self).include_channel,
            decreases length - self.line@.len(),
        {
            let ghost previous = self@.cells;
            self.line.push(None);
            assert(self@.cells =~= previous.push(None));
        }
        assert(self@.cells =~= before.widened(length as int));
    }

    /// Ends the line: hands it out with a line feed and starts an empty one.
    fn finish_line(&mut self) -> (line: Vec<u8>)
        ensures
            line@ == old(self)@.visible().push(10u8),
            final(self)@ == (TermView {
                cells: Seq::empty(),
                cursor: 0,
                complete: old(self)@.complete,
            }),
            final(self).complete == old(self).complete,
            final(self).parser == old(self).parser,
            final(self).include_channel == old(self).include_channel,
    {
        let mut line = self.visible_line();
        line.push(10);
        self.line.clear();
        self.cursor = 0;
        assert(self@.cells =~= Seq::<Option<Seq<char>>>::empty());
        line
    }

    /// Performs a control function.
    pub fn execute(&mut self, byte: u8)
        requires
            old(self).wf(),
        ensures
            final(self).wf(),
            final(self)@ == old(self)@.execute(byte),
            final(self).parser == old(self).parser,
            final(self).include_channel == old(self).include_channel,
    {
        let ghost before = self@;
        proof {
            lemma_bounded(before, TermAction::Execute(byte));
        }
        if byte == 13 {
            self.cursor = 0;
        } else if byte == 10 {
            let line = self.finish_line();
            self.complete.push(line);
            assert(self@.complete =~= before.execute(byte).complete);
        } else if byte == 8 {
            self.cursor = if self.cursor == 0 {
                0
            } else {
                self.cursor - 1
            };
        } else if byte == 9 {
            let next: usize = self.cursor + (8 - self.cursor % 8);
            self.cursor = if next < MAX_TERMINAL_COLUMNS {
                next
            } else {
                MAX_TERMINAL_COLUMNS
            };
            let stop: usize = self.cursor;
            self.widen(stop);
        }
    }

    /// Performs a control sequence.
    pub fn csi_dispatch(&mut self, parameter: Option<u16>, action: char)
        requires
            old(self).wf(),
        ensures
            final(self).wf(),
            final(self)@ == old(self)@.csi(parameter, action),
            final(self).parser == old(self).parser,
            final(self).include_channel == old(self).include_channel,
    {
        let ghost before = self@;
        proof {
            lemma_bounded(before, TermAction::Csi { parameter, action });
        }
        let value: usize = match parameter {
            Some(given) => given as usize,
            None => 1,
        };
        let count: usize = if value == 0 {
            1
        } else {
            value
        };
        if action == 'K' {
            if value == 0 {
                self.line.truncate(self.cursor);
                assert(self@.cells =~= before.csi(parameter, action).cells);
            } else if value == 1 {
                self.erase_through_cursor();
                assert(self@.cells =~= before.csi(parameter, action).cells);
            } else if value == 2 {
                self.line.clear();
                assert(self@.cells =~= before.csi(parameter, action).cells);
            }
        } else if action == 'G' || action == '`' {
            let column: usize = if value == 0 {
                0
            } else {
                value - 1
            };
            self.cursor = if column < MAX_TERMINAL_COLUMNS {
                column
            } else {
                MAX_TERMINAL_COLUMNS
            };
        } else if action == 'C' {
            self.cursor = if value < MAX_TERMINAL_COLUMNS - self.cursor {
                self.cursor + value
            } else {
                MAX_TERMINAL_COLUMNS
            };
        } else if action == 'D' {
            self.cursor = if self.cursor < count {
                0
            } else {
                self.cursor - count
            };
        } else if action == 'P' {
            let length: usize = self.line.len();
            if self.cursor < length {
                let mut tail = self.line.split_off(self.cursor);
                if count < tail.len() {
                    let mut kept = tail.split_off(count);
                    self.line.append(&mut kept);
                }
            }
            assert(self@.cells =~= before.csi(parameter, action).cells);
        }
    }

    /// Clears every column up to and with the cursor's.
    fn erase_through_cursor(&mut self)
        requires
            old(self).cursor < usize::MAX,
        ensures
            final(self)@ == old(self)@.csi(Some(1u16), 'K'),
            final(self).parser == old(self).parser,
            final(self).include_channel == old(self).include_channel,
    {
        let ghost before = self@;
        let end: usize = if self.cursor + 1 < self.line.len() {
            self.cursor + 1
        } else {
            self.line.len()
        };
        let mut index: usize = 0;
        while index < end
            invariant
                index <= end <= self.line@.len(),
                self.line@.len() == before.cells.len(),
                forall|i: int| 0 <= i < index ==> #[trigger] self@.cells[i] is None,
                forall|i: int|
                    index <= i < self.line@.len() ==> #[trigger] self@.cells[i] == before.cells[i],
                self.cursor == old(self).cursor,
                self.complete == old(self).complete,
                self.parser == old(self).parser,
                self.include_channel == old(self).include_channel,
            decreases end - index,
        {
            let ghost previous = self@.cells;
            self.line[index] = None;
            assert(self@.cells =~= previous.update(index as int, None));
            index += 1;
        }
        assert(self@.cells =~= before.csi(Some(1u16), 'K').cells);
    }

    /// Takes in a chunk of terminal output and hands out the lines that it ends.
    pub fn consume(&mut self, bytes: &[u8]) -> (complete: Vec<Vec<u8>>)
        requires
            old(self).wf(),
        ensures
            final(self).wf(),
            final(self).feed() == old(self).feed().push(bytes@),
            final(self).include_channel == old(self).include_channel,
            ({
                let after = old(self)@.apply_all(terminal_actions(old(self).feed(), bytes@));
                &&& lines_view(complete@) == after.complete
                &&& final(self)@ == (TermView { complete: Seq::empty(), ..after })
            }),
            chunk_is_known(old(self).feed(), bytes@),
    {
        let ghost before = self@;
        let ghost feed = self.feed();
        let actions = advance(&mut self.parser, bytes);
        let mut index: usize = 0;
        let ghost parser = self.parser;
        assert(self@ == before);
        assert(actions@.take(0) =~= Seq::<TermAction>::empty());
        while index < actions.len()
            invariant
                index <= actions@.len(),
                self.wf(),
                self.parser == parser,
                self.include_channel == old(self).include_channel,
                self@ == before.apply_all(actions@.take(index as int)),
                ascii_is_narrow(actions@.take(index as int)),
            decreases actions@.len() - index,
        {
            let ghost taken = actions@.take(index + 1);
            assert(taken.drop_last() =~= actions@.take(index as int));
            match actions[index] {
                TermAction::Print(character) => self.print(character),
                TermAction::Execute(byte) => self.execute(byte),
                TermAction::Csi { parameter, action } => self.csi_dispatch(parameter, action),
            }
            assert forall|i: int| 0 <= i < taken.len() implies ((
            #[trigger] taken[i]) matches TermAction::Print(character) ==> ' ' <= character <= '~'
                ==> char_columns(character) == Some(1usize)) by {
                if i < index {
                    assert(taken[i] == actions@.take(index as int)[i]);
                }
            }
            index += 1;
        }
        assert(actions@.take(actions@.len() as int) =~= actions@);
        assert(ascii_may_be_cut(feed, bytes@)) by {
            assert forall|first: Seq<u8>, second: Seq<u8>|
                is_seven_bit(bytes@) && bytes@ == first + second implies #[trigger] may_be_cut(feed, first, second) by {
                assert(actions@ == terminal_actions(feed, first) + terminal_actions(
                    feed.push(first),
                    second,
                ));
            }
        }
        let mut complete: Vec<Vec<u8>> = Vec::new();
        complete.append(&mut self.complete);
        assert(complete@ =~= Seq::<Vec<u8>>::empty() + complete@);
        assert(self@.complete =~= Seq::<Seq<u8>>::empty());
        complete
    }
}

/// Every request keeps line length, cursor and marks within their limits.
pub proof fn lemma_bounded(view: TermView, action: TermAction)
    requires
        view.bounded(),
    ensures
        view.apply(action).bounded(),
{
    match action {
        TermAction::Print(character) => {
            lemma_last_written(view.cells, min_int(view.cursor, view.cells.len() as int));
        },
        _ => {},
    }
}

/// The last written column is below the limit, and it is written.
pub proof fn lemma_last_written(cells: Seq<Option<Seq<char>>>, end: int)
    requires
        end <= cells.len(),
    ensures
        last_written(cells, end) matches Some(index) ==> 0 <= index < end && cells[index] is Some,
    decreases end,
{
    if end > 0 && cells[end - 1] is None {
        lemma_last_written(cells, end - 1);
    }
}

/// Whatever is asked of the terminal, line length, cursor and marks stay within
/// their limits.
pub proof fn law_line_stays_bounded(view: TermView, actions: Seq<TermAction>)
    requires
        view.bounded(),
    ensures
        view.apply_all(actions).bounded(),
    decreases actions.len(),
{
    if actions.len() > 0 {
        law_line_stays_bounded(view, actions.drop_last());
        lemma_bounded(view.apply_all(actions.drop_last()), actions.last());
    }
}

/// Requests that come in two parts do what they do in one.
pub proof fn law_requests_in_parts(view: TermView, first: Seq<TermAction>, second: Seq<TermAction>)
    ensures
        view.apply_all(first + second) == view.apply_all(first).apply_all(second),
    decreases second.len(),
{
    if second.len() == 0 {
        assert(first + second =~= first);
    } else {
        law_requests_in_parts(view, first, second.drop_last());
        assert((first + second).drop_last() =~= first + second.drop_last());
    }
}

/// The line is shown the same whatever lines were finished before it.
pub proof fn lemma_earlier_lines(view: TermView, earlier: Seq<Seq<u8>>, actions: Seq<TermAction>)
    ensures
        ({
            let after = view.apply_all(actions);
            TermView { complete: earlier + view.complete, ..view }.apply_all(actions) == (TermView {
                complete: earlier + after.complete,
                ..after
            })
        }),
    decreases actions.len(),
{
    if actions.len() > 0 {
        lemma_earlier_lines(view, earlier, actions.drop_last());
        let before = view.apply_all(actions.drop_last());
        let line = before.visible().push(10u8);
        assert((earlier + before.complete).push(line) =~= earlier + before.complete.push(line));
    }
}

/// Each line feed that is executed finishes a line, and nothing else does.
pub proof fn law_line_feeds_finish_lines(view: TermView, actions: Seq<TermAction>)
    ensures
        view.apply_all(actions).complete.len() == view.complete.len() + executed_line_feeds(actions),
    decreases actions.len(),
{
    if actions.len() > 0 {
        law_line_feeds_finish_lines(view, actions.drop_last());
    }
}

/// Plain bytes print no control function.
pub proof fn lemma_plain_prints_visibly(bytes: Seq<u8>)
    ensures
        prints_visibly(plain_actions(bytes)),
{
    assert forall|i: int| 0 <= i < bytes.len() implies ((
    #[trigger] plain_actions(bytes)[i]) matches TermAction::Print(character) ==> ' '
        <= character) by {
        assert(plain_actions(bytes)[i] == plain_action(bytes[i]));
        if bytes[i] >= 0x20 {
            assert(' ' <= bytes[i] as char);
        }
    }
}

/// Text without control functions below the space.
pub open spec fn is_visible_text(text: Seq<char>) -> bool {
    forall|i: int| 0 <= i < text.len() ==> ' ' <= #[trigger] text[i]
}

impl TermView {
    /// The columns hold no control functions below the space.
    pub open spec fn shows_visible_text(self) -> bool {
        forall|i: int|
            0 <= i < self.cells.len() && (#[trigger] self.cells[i]) is Some ==> is_visible_text(
                self.cells[i]->0,
            )
    }

    /// Each finished line holds one line feed, its last byte.
    pub open spec fn ends_its_lines(self) -> bool {
        forall|i: int|
            0 <= i < self.complete.len() ==> (#[trigger] self.complete[i]).len() > 0
                && self.complete[i].last() == 10 && in_one_line(self.complete[i].drop_last())
    }
}

proof fn lemma_visible_columns(cells: Seq<Option<Seq<char>>>, count: int)
    requires
        count <= cells.len(),
        forall|i: int|
            0 <= i < cells.len() && (#[trigger] cells[i]) is Some ==> is_visible_text(cells[i]->0),
    ensures
        is_visible_text(column_text(cells, count)),
    decreases count,
{
    if count > 0 {
        lemma_visible_columns(cells, count - 1);
    }
}

proof fn lemma_visible_character(character: char)
    requires
        ' ' <= character,
    ensures
        in_one_line(encode_scalar(character as u32)),
{
    let scalar = character as u32;
    assert(0x20 <= scalar <= 0x7f ==> (scalar & 0x7f) as u8 != 10) by (bit_vector);
    assert(0xC0 | ((scalar >> 6) & 0x1F) as u8 != 10) by (bit_vector);
    assert(0xE0 | ((scalar >> 12) & 0x0F) as u8 != 10) by (bit_vector);
    assert(0xF0 | ((scalar >> 18) & 0x7) as u8 != 10) by (bit_vector);
    assert(0x80 | (scalar & 0x3F) as u8 != 10) by (bit_vector);
    assert(0x80 | ((scalar >> 6) & 0x3F) as u8 != 10) by (bit_vector);
    assert(0x80 | ((scalar >> 12) & 0x3F) as u8 != 10) by (bit_vector);
}

proof fn lemma_visible_bytes(text: Seq<char>)
    requires
        is_visible_text(text),
    ensures
        in_one_line(encode_utf8(text)),
    decreases text.len(),
{
    if text.len() > 0 {
        lemma_visible_character(text[0]);
        assert forall|i: int| 0 <= i < text.drop_first().len() implies ' '
            <= #[trigger] text.drop_first()[i] by {
            assert(text.drop_first()[i] == text[i + 1]);
        }
        lemma_visible_bytes(text.drop_first());
    }
}

/// What is seen of a line holds no line feed.
pub proof fn lemma_visible_line_is_one_line(view: TermView)
    requires
        view.shows_visible_text(),
    ensures
        in_one_line(view.visible()),
{
    lemma_last_written(view.cells, view.cells.len() as int);
    lemma_visible_columns(view.cells, shown_columns(view.cells));
    lemma_visible_bytes(visible_text(view.cells));
}

/// Whatever is asked of the terminal, as long as no control function is printed, the
/// line holds none, and each finished line holds one line feed, its last byte.
pub proof fn lemma_lines_stay_visible(view: TermView, actions: Seq<TermAction>)
    requires
        prints_visibly(actions),
        view.bounded(),
        view.shows_visible_text(),
        view.ends_its_lines(),
    ensures
        view.apply_all(actions).bounded(),
        view.apply_all(actions).shows_visible_text(),
        view.apply_all(actions).ends_its_lines(),
    decreases actions.len(),
{
    law_line_stays_bounded(view, actions);
    if actions.len() > 0 {
        let fewer = actions.drop_last();
        assert forall|i: int| 0 <= i < fewer.len() implies ((
        #[trigger] fewer[i]) matches TermAction::Print(character) ==> ' ' <= character) by {
            assert(fewer[i] == actions[i]);
        }
        lemma_lines_stay_visible(view, fewer);
        lemma_request_stays_visible(view.apply_all(fewer), actions.last());
    }
}

proof fn lemma_request_stays_visible(view: TermView, action: TermAction)
    requires
        action matches TermAction::Print(character) ==> ' ' <= character,
        view.bounded(),
        view.shows_visible_text(),
        view.ends_its_lines(),
    ensures
        view.apply(action).shows_visible_text(),
        view.apply(action).ends_its_lines(),
{
    match action {
        TermAction::Print(character) => {
            lemma_last_written(view.cells, min_int(view.cursor, view.cells.len() as int));
        },
        TermAction::Execute(byte) => {
            if byte == 10 {
                lemma_visible_line_is_one_line(view);
                let line = view.visible().push(10u8);
                assert(line.drop_last() =~= view.visible());
            }
        },
        TermAction::Csi { .. } => {},
    }
}

/// The columns of a text whose characters take one column each.
pub open spec fn text_cells(text: Seq<char>) -> Seq<Option<Seq<char>>> {
    Seq::new(text.len(), |i: int| Some(seq![text[i]]))
}

/// The request to print a character.
pub open spec fn print_of(character: char) -> TermAction {
    TermAction::Print(character)
}

/// The requests that print a text.
pub open spec fn prints(text: Seq<char>) -> Seq<TermAction> {
    Seq::new(text.len(), |i: int| print_of(text[i]))
}

/// A text of characters that take one column each.
pub open spec fn is_narrow(text: Seq<char>) -> bool {
    forall|i: int| 0 <= i < text.len() ==> char_columns(#[trigger] text[i]) == Some(1usize)
}

/// Printing replaces what stood at the cursor and keeps the rest: on a line that
/// shows `shown`, with the cursor in or right behind it, narrow text takes the
/// place of as many characters, and what stood behind them stays. On an empty line
/// the text itself is shown.
pub proof fn law_text_overwrites(
    shown: Seq<char>,
    cursor: int,
    complete: Seq<Seq<u8>>,
    text: Seq<char>,
)
    requires
        is_narrow(text),
        0 <= cursor <= shown.len(),
        shown.len() <= MAX_TERMINAL_COLUMNS,
        cursor + text.len() <= MAX_TERMINAL_COLUMNS,
    ensures
        ({
            let line = TermView { cells: text_cells(shown), cursor, complete };
            let rest = if cursor + text.len() < shown.len() {
                shown.skip(cursor + text.len())
            } else {
                Seq::empty()
            };
            let result = shown.take(cursor) + text + rest;
            &&& line.apply_all(prints(text)) == (TermView {
                cells: text_cells(result),
                cursor: cursor + text.len(),
                complete,
            })
            &&& line.apply_all(prints(text)).visible() == encode_utf8(result)
        }),
    decreases text.len(),
{
    let line = TermView { cells: text_cells(shown), cursor, complete };
    let rest = if cursor + text.len() < shown.len() {
        shown.skip(cursor + text.len())
    } else {
        Seq::empty()
    };
    let result = shown.take(cursor) + text + rest;
    if text.len() == 0 {
        assert(result =~= shown);
    } else {
        let front = text.drop_last();
        law_text_overwrites(shown, cursor, complete, front);
        assert(prints(text).drop_last() =~= prints(front));
        let middle = line.apply_all(prints(front));
        assert(prints(text).last() == TermAction::Print(text.last()));
        assert(char_columns(text[text.len() - 1]) == Some(1usize));
        let front_rest = if cursor + front.len() < shown.len() {
            shown.skip(cursor + front.len())
        } else {
            Seq::empty()
        };
        assert(middle.cells == text_cells(shown.take(cursor) + front + front_rest));
        assert(middle.print(text.last()).cells =~= text_cells(result));
    }
    lemma_text_cells_visible(result);
}

/// A line of narrow text shows that text.
proof fn lemma_text_cells_visible(text: Seq<char>)
    ensures
        visible_text(text_cells(text)) == text,
{
    lemma_text_column_text(text, text.len() as int);
    assert(text.take(text.len() as int) =~= text);
    if text.len() > 0 {
        assert(text_cells(text)[text.len() - 1] is Some);
    }
}

proof fn lemma_text_column_text(text: Seq<char>, count: int)
    requires
        0 <= count <= text.len(),
    ensures
        column_text(text_cells(text), count) == text.take(count),
    decreases count,
{
    if count > 0 {
        lemma_text_column_text(text, count - 1);
        assert(text.take(count) =~= text.take(count - 1) + seq![text[count - 1]]);
    } else {
        assert(text.take(count) =~= Seq::<char>::empty());
    }
}

/// The requests that end a line: a line feed, or a carriage return before it.
pub open spec fn ends_a_line(actions: Seq<TermAction>) -> bool {
    ||| actions == seq![TermAction::Execute(10u8)]
    ||| actions == seq![TermAction::Execute(13u8), TermAction::Execute(10u8)]
}

/// Narrow text on an empty line becomes, when the line is ended, a finished line
/// that holds the text and a line feed.
pub proof fn law_text_line_is_kept(
    complete: Seq<Seq<u8>>,
    text: Seq<char>,
    ending: Seq<TermAction>,
)
    requires
        is_narrow(text),
        text.len() <= MAX_TERMINAL_COLUMNS,
        ends_a_line(ending),
    ensures
        ({
            let empty = TermView { cells: Seq::empty(), cursor: 0, complete };
            empty.apply_all(prints(text) + ending) == (TermView {
                complete: complete.push(encode_utf8(text).push(10u8)),
                ..empty
            })
        }),
{
    let empty = TermView { cells: Seq::empty(), cursor: 0, complete };
    let nothing = Seq::<char>::empty();
    assert(text_cells(nothing) =~= empty.cells);
    law_text_overwrites(nothing, 0, complete, text);
    assert(nothing.take(0) + text + nothing =~= text);
    let all = prints(text) + ending;
    if ending.len() == 1 {
        assert(all.drop_last() =~= prints(text));
    } else {
        let back = TermAction::Execute(13u8);
        assert(all.drop_last() =~= prints(text).push(back));
        assert(prints(text).push(back).drop_last() =~= prints(text));
        let printed = empty.apply_all(prints(text));
        let returned = TermView { cursor: 0, ..printed };
        assert(empty.apply_all(prints(text).push(back)) == returned);
        assert(returned.visible() == printed.visible());
    }
    assert(all.last() == TermAction::Execute(10u8));
}

/// Erasing the line and returning to its start leaves nothing of what a redraw
/// replaces, in either order.
pub proof fn law_redraw_starts_afresh(view: TermView)
    ensures
        ({
            let erase = TermAction::Csi { parameter: Some(2u16), action: 'K' };
            let back = TermAction::Execute(13u8);
            let fresh = TermView { cells: Seq::empty(), cursor: 0, complete: view.complete };
            &&& view.apply_all(seq![back, erase]) == fresh
            &&& view.apply_all(seq![erase, back]) == fresh
        }),
{
    let erase = TermAction::Csi { parameter: Some(2u16), action: 'K' };
    let back = TermAction::Execute(13u8);
    reveal_with_fuel(TermView::apply_all, 3);
    assert(seq![back, erase].drop_last() =~= seq![back]);
    assert(seq![erase, back].drop_last() =~= seq![erase]);
    assert(seq![back].drop_last() =~= Seq::<TermAction>::empty());
    assert(seq![erase].drop_last() =~= Seq::<TermAction>::empty());
}

/// Printable ASCII characters, one for each byte.
pub open spec fn ascii_text(bytes: Seq<u8>) -> Seq<char> {
    Seq::new(bytes.len(), |i: int| bytes[i] as char)
}

/// Bytes of printable ASCII characters.
pub open spec fn is_printable(bytes: Seq<u8>) -> bool {
    forall|i: int| 0 <= i < bytes.len() ==> 0x20 <= #[trigger] bytes[i] <= 0x7e
}

/// Printable ASCII bytes with a line end behind them, as a chunk after plain ones,
/// print narrow text and end the line.
pub proof fn law_printable_line_is_printed(feed: Seq<Seq<u8>>, bytes: Seq<u8>, ending: Seq<u8>)
    requires
        is_printable(bytes),
        ending == seq![10u8] || ending == seq![13u8, 10u8],
        forall|i: int| 0 <= i < feed.len() ==> is_plain(#[trigger] feed[i]),
        chunk_is_known(feed, bytes + ending),
    ensures
        terminal_actions(feed, bytes + ending) == prints(ascii_text(bytes)) + plain_actions(ending),
        ends_a_line(plain_actions(ending)),
        is_narrow(ascii_text(bytes)),
        encode_utf8(ascii_text(bytes)) == bytes,
{
    let text = ascii_text(bytes);
    let all = bytes + ending;
    assert(is_plain(all)) by {
        assert forall|i: int| 0 <= i < all.len() implies #[trigger] all[i] < 0x80 && all[i]
            != 0x1b by {
            if i < bytes.len() {
                assert(all[i] == bytes[i]);
            } else {
                assert(all[i] == ending[i - bytes.len()]);
            }
        }
    }
    assert(terminal_actions(feed, all) == plain_actions(all));
    assert forall|i: int| 0 <= i < bytes.len() implies plain_actions(all)[i] == #[trigger] print_of(
        text[i],
    ) by {
        assert(all[i] == bytes[i]);
    }
    assert(plain_actions(all) =~= prints(text) + plain_actions(ending));
    if ending == seq![10u8] {
        assert(plain_actions(ending) =~= seq![TermAction::Execute(10u8)]);
    } else {
        assert(plain_actions(ending) =~= seq![TermAction::Execute(13u8), TermAction::Execute(10u8)]);
    }
    assert forall|i: int| 0 <= i < text.len() implies char_columns(#[trigger] text[i])
        == Some(1usize) by {
        assert(bytes[i] >= 0x20);
        assert(terminal_actions(feed, all)[i] == print_of(text[i]));
    }
    assert(is_ascii_chars(text)) by {
        assert forall|i: int| 0 <= i < text.len() implies '\0' <= #[trigger] text[i]
            <= '\u{7f}' by {
            assert(bytes[i] <= 0x7e);
        }
    }
    is_ascii_chars_encode_utf8(text);
    assert(encode_utf8(text) =~= bytes) by {
        assert forall|i: int| 0 <= i < bytes.len() implies #[trigger] encode_utf8(text)[i]
            == bytes[i] by {
            assert(text[i] as u8 == encode_utf8(text)[i]);
            assert(bytes[i] <= 0x7e);
        }
    }
}

/// Erasing to the end of the line, CSI 0 K, takes every column at or behind the
/// cursor away and leaves those before it, the cursor and the finished lines.
pub proof fn law_erase_to_the_end(view: TermView)
    requires
        0 <= view.cursor,
    ensures
        ({
            let after = view.apply(TermAction::Csi { parameter: Some(0u16), action: 'K' });
            &&& after.cells.len() <= view.cursor
            &&& after.cells.len() == view.cells.len() || after.cells.len() == view.cursor
            &&& after.cells.len() <= view.cells.len()
            &&& forall|i: int|
                0 <= i < view.cursor && i < view.cells.len() ==> #[trigger] after.cells[i]
                    == view.cells[i]
            &&& after.cursor == view.cursor
            &&& after.complete == view.complete
        }),
{
}

/// On a line that shows a text, with the cursor in or right behind it, erasing to
/// the end leaves the text before the cursor.
pub proof fn law_erase_to_the_end_shows_the_front(
    shown: Seq<char>,
    cursor: int,
    complete: Seq<Seq<u8>>,
)
    requires
        0 <= cursor <= shown.len(),
    ensures
        ({
            let line = TermView { cells: text_cells(shown), cursor, complete };
            let after = line.apply(TermAction::Csi { parameter: Some(0u16), action: 'K' });
            &&& after.visible() == encode_utf8(shown.take(cursor))
            &&& after.cells == text_cells(shown.take(cursor))
        }),
{
    let line = TermView { cells: text_cells(shown), cursor, complete };
    let after = line.apply(TermAction::Csi { parameter: Some(0u16), action: 'K' });
    assert(after.cells =~= text_cells(shown.take(cursor)));
    lemma_text_is_seen(shown.take(cursor));
}

proof fn lemma_text_is_seen(text: Seq<char>)
    ensures
        visible_text(text_cells(text)) == text,
{
    lemma_text_columns(text, text.len() as int);
    assert(text.take(text.len() as int) =~= text);
    if text.len() > 0 {
        assert(text_cells(text)[text.len() - 1] is Some);
    }
}

proof fn lemma_text_columns(text: Seq<char>, count: int)
    requires
        0 <= count <= text.len(),
    ensures
        column_text(text_cells(text), count) == text.take(count),
    decreases count,
{
    if count > 0 {
        lemma_text_columns(text, count - 1);
        assert(text_cells(text)[count - 1] == Some(seq![text[count - 1]]));
        assert(text.take(count) =~= text.take(count - 1) + seq![text[count - 1]]);
    } else {
        assert(text.take(0) =~= Seq::<char>::empty());
    }
}

/// A line that is drawn again over a longer one, with what is left of that erased
/// behind it, is finished as the new one alone.
pub proof fn law_redrawn_line_is_finished(old_text: Seq<char>, new_text: Seq<char>)
    requires
        is_narrow(old_text),
        is_narrow(new_text),
        old_text.len() <= MAX_TERMINAL_COLUMNS,
        new_text.len() <= MAX_TERMINAL_COLUMNS,
    ensures
        blank_line().apply_all(
            prints(old_text) + seq![TermAction::Execute(13u8)] + prints(new_text) + seq![
                TermAction::Csi { parameter: Some(0u16), action: 'K' },
                TermAction::Execute(10u8),
            ],
        ).complete == seq![encode_utf8(new_text).push(10u8)],
{
    let back = seq![TermAction::Execute(13u8)];
    let erase = TermAction::Csi { parameter: Some(0u16), action: 'K' };
    let ending = seq![erase, TermAction::Execute(10u8)];
    let nothing = Seq::<char>::empty();
    let none = Seq::<Seq<u8>>::empty();
    law_requests_in_parts(blank_line(), prints(old_text) + back + prints(new_text), ending);
    law_requests_in_parts(blank_line(), prints(old_text) + back, prints(new_text));
    law_requests_in_parts(blank_line(), prints(old_text), back);
    assert(text_cells(nothing) =~= blank_line().cells);
    law_text_overwrites(nothing, 0, none, old_text);
    assert(nothing.take(0) + old_text + nothing =~= old_text);
    let printed = TermView {
        cells: text_cells(old_text),
        cursor: old_text.len() as int,
        complete: none,
    };
    assert(blank_line().apply_all(prints(old_text)) == printed);
    let returned = TermView { cells: text_cells(old_text), cursor: 0, complete: none };
    assert(back.drop_last() =~= Seq::<TermAction>::empty());
    assert(printed.apply_all(back) == printed.apply_all(back.drop_last()).apply(back.last()));
    assert(printed.apply_all(back) == returned);
    law_text_overwrites(old_text, 0, none, new_text);
    let rest = if new_text.len() < old_text.len() {
        old_text.skip(new_text.len() as int)
    } else {
        nothing
    };
    let mixed = old_text.take(0) + new_text + rest;
    let redrawn = TermView {
        cells: text_cells(mixed),
        cursor: new_text.len() as int,
        complete: none,
    };
    assert(returned.apply_all(prints(new_text)) == redrawn);
    law_erase_to_the_end_shows_the_front(mixed, new_text.len() as int, none);
    assert(mixed.take(new_text.len() as int) =~= new_text);
    assert(ending.drop_last() =~= seq![erase]);
    assert(seq![erase].drop_last() =~= Seq::<TermAction>::empty());
    let erased = redrawn.apply(erase);
    assert(redrawn.apply_all(seq![erase]) == redrawn.apply_all(seq![erase].drop_last()).apply(
        seq![erase].last(),
    ));
    assert(redrawn.apply_all(ending) == redrawn.apply_all(ending.drop_last()).apply(ending.last()));
    law_controls_act(erased, 10u8);
    assert(redrawn.apply_all(ending).complete =~= seq![encode_utf8(new_text).push(10u8)]);
}

/// Erasing from the start of the line, CSI 1 K, empties the columns up to the cursor
/// and that under it, and leaves the others, the length of the line and the cursor.
/// A sequence without a parameter does the same.
pub proof fn law_erase_from_the_start(view: TermView)
    ensures
        ({
            let after = view.apply(TermAction::Csi { parameter: Some(1u16), action: 'K' });
            &&& after.cells.len() == view.cells.len()
            &&& forall|i: int|
                0 <= i < view.cells.len() && i <= view.cursor ==> #[trigger] after.cells[i] is None
            &&& forall|i: int|
                0 <= i < view.cells.len() && view.cursor < i ==> #[trigger] after.cells[i]
                    == view.cells[i]
            &&& after.cursor == view.cursor
            &&& after.complete == view.complete
            &&& view.apply(TermAction::Csi { parameter: None, action: 'K' }) == after
        }),
{
}

/// Erasing the whole line, CSI 2 K, leaves no column, and leaves the cursor and the
/// finished lines. Larger parameters erase nothing.
pub proof fn law_erase_the_line(view: TermView, parameter: u16)
    requires
        parameter >= 2,
    ensures
        ({
            let after = view.apply(TermAction::Csi { parameter: Some(parameter), action: 'K' });
            if parameter == 2 {
                &&& after.cells.len() == 0
                &&& after.visible().len() == 0
                &&& after.cursor == view.cursor
                &&& after.complete == view.complete
            } else {
                after == view
            }
        }),
{
}

/// Cursor movements leave the line as it is. `G` and the backquote go to a column,
/// counted from one; `C` goes to the right and `D` to the left, neither beyond the
/// ends of the line. To the left a zero counts as one.
pub proof fn law_moves_leave_the_line(view: TermView, parameter: Option<u16>, action: char)
    requires
        view.bounded(),
        action == 'G' || action == '`' || action == 'C' || action == 'D',
    ensures
        ({
            let after = view.apply(TermAction::Csi { parameter, action });
            let count: int = match parameter {
                Some(given) => given as int,
                None => 1,
            };
            &&& after.cells == view.cells
            &&& after.complete == view.complete
            &&& 0 <= after.cursor <= 4096
            &&& action == 'G' || action == '`' ==> {
                &&& 1 <= count <= 4097 ==> after.cursor == count - 1
                &&& count == 0 ==> after.cursor == 0
                &&& count > 4097 ==> after.cursor == 4096
            }
            &&& action == 'C' ==> {
                &&& view.cursor + count <= 4096 ==> after.cursor == view.cursor + count
                &&& view.cursor + count > 4096 ==> after.cursor == 4096
            }
            &&& action == 'D' ==> {
                &&& 1 <= count <= view.cursor ==> after.cursor == view.cursor - count
                &&& count > view.cursor ==> after.cursor == 0
                &&& count == 0 && view.cursor > 0 ==> after.cursor == view.cursor - 1
            }
        }),
{
}

/// Going right and then as far left leads back, where there is room.
pub proof fn law_moves_lead_back(view: TermView, count: u16)
    requires
        view.bounded(),
        count >= 1,
        view.cursor + count <= MAX_TERMINAL_COLUMNS,
    ensures
        view.apply(TermAction::Csi { parameter: Some(count), action: 'C' }).apply(
            TermAction::Csi { parameter: Some(count), action: 'D' },
        ) == view,
{
}

/// Deleting characters, CSI P, leaves the columns before the cursor, takes so many
/// away from there on, one where zero or none is given, and moves the rest up.
pub proof fn law_delete_moves_the_rest_up(view: TermView, parameter: Option<u16>)
    requires
        view.bounded(),
    ensures
        ({
            let after = view.apply(TermAction::Csi { parameter, action: 'P' });
            let count: int = match parameter {
                Some(given) => if given == 0 {
                    1
                } else {
                    given as int
                },
                None => 1,
            };
            &&& forall|i: int|
                0 <= i < view.cursor && i < view.cells.len() ==> #[trigger] after.cells[i]
                    == view.cells[i]
            &&& view.cursor + count <= view.cells.len() ==> after.cells.len() == view.cells.len()
                - count && (forall|i: int|
                view.cursor <= i < after.cells.len() ==> #[trigger] after.cells[i]
                    == view.cells[i + count])
            &&& view.cursor <= view.cells.len() < view.cursor + count ==> after.cells.len()
                == view.cursor
            &&& view.cells.len() < view.cursor ==> after.cells.len() == view.cells.len()
            &&& after.cursor == view.cursor
            &&& after.complete == view.complete
        }),
{
}

/// Control sequences other than erasing, moving and deleting do nothing, colours
/// among them.
pub proof fn law_other_sequences_do_nothing(view: TermView, parameter: Option<u16>, action: char)
    requires
        action != 'K',
        action != 'G',
        action != '`',
        action != 'C',
        action != 'D',
        action != 'P',
    ensures
        view.apply(TermAction::Csi { parameter, action }) == view,
{
}

/// A carriage return goes to the start of the line, a backspace one column back, a
/// tab to the next column that eight divides; all leave what is written. A line feed
/// finishes the line and begins an empty one. Other control functions do nothing.
pub proof fn law_controls_act(view: TermView, byte: u8)
    requires
        view.bounded(),
    ensures
        ({
            let after = view.apply(TermAction::Execute(byte));
            &&& byte == 13 ==> after == (TermView { cursor: 0, ..view })
            &&& byte == 8 ==> after.cells == view.cells && after.complete == view.complete && (
            view.cursor == 0 ==> after.cursor == 0) && (view.cursor > 0 ==> after.cursor
                == view.cursor - 1)
            &&& byte == 9 ==> {
                &&& after.complete == view.complete
                &&& after.cursor % 8 == 0
                &&& view.cursor < 4096 ==> view.cursor < after.cursor <= view.cursor + 8
                &&& view.cursor == 4096 ==> after.cursor == 4096
                &&& after.cells.len() >= view.cells.len()
                &&& after.cells.len() >= after.cursor
                &&& after.cells.len() == view.cells.len() || after.cells.len() == after.cursor
                &&& forall|i: int|
                    0 <= i < view.cells.len() ==> #[trigger] after.cells[i] == view.cells[i]
                &&& forall|i: int|
                    view.cells.len() <= i < after.cells.len() ==> #[trigger] after.cells[i] is None
            }
            &&& byte == 10 ==> {
                &&& after.cells.len() == 0
                &&& after.cursor == 0
                &&& after.complete == view.complete.push(view.visible().push(10u8))
            }
            &&& byte != 8 && byte != 9 && byte != 10 && byte != 13 ==> after == view
        }),
{
}

/// A character of one column or more stands at the cursor alone, the further columns
/// that it takes are empty, the others stay, and the cursor goes behind it.
pub proof fn law_characters_take_their_columns(view: TermView, character: char, width: usize)
    requires
        view.bounded(),
        char_columns(character) == Some(width),
        width > 0,
        view.cursor + width <= MAX_TERMINAL_COLUMNS,
    ensures
        ({
            let after = view.apply(TermAction::Print(character));
            let end = view.cursor + width;
            &&& after.cursor == end
            &&& after.complete == view.complete
            &&& after.cells.len() >= view.cells.len() && after.cells.len() >= end
            &&& after.cells.len() == view.cells.len() || after.cells.len() == end
            &&& after.cells[view.cursor] == Some(seq![character])
            &&& forall|i: int| view.cursor < i < end ==> #[trigger] after.cells[i] is None
            &&& forall|i: int|
                0 <= i < view.cells.len() && !(view.cursor <= i < end)
                    ==> #[trigger] after.cells[i] == view.cells[i]
            &&& forall|i: int|
                view.cells.len() <= i < view.cursor ==> #[trigger] after.cells[i] is None
        }),
{
}

/// At the right end of the line nothing more is written.
pub proof fn law_full_lines_take_no_more(view: TermView, character: char, width: usize)
    requires
        view.bounded(),
        char_columns(character) == Some(width),
        width > 0,
        view.cursor == MAX_TERMINAL_COLUMNS,
    ensures
        view.apply(TermAction::Print(character)) == view,
{
}

proof fn lemma_nearest_written(cells: Seq<Option<Seq<char>>>, place: int, end: int)
    requires
        0 <= place < end <= cells.len(),
        cells[place] is Some,
        forall|i: int| place < i < end ==> #[trigger] cells[i] is None,
    ensures
        last_written(cells, end) == Some(place),
    decreases end,
{
    if place < end - 1 {
        assert(cells[end - 1] is None);
        lemma_nearest_written(cells, place, end - 1);
    }
}

proof fn lemma_none_written(cells: Seq<Option<Seq<char>>>, end: int)
    requires
        end <= cells.len(),
        forall|i: int| 0 <= i < end ==> #[trigger] cells[i] is None,
    ensures
        last_written(cells, end) is None,
    decreases end,
{
    if end > 0 {
        assert(cells[end - 1] is None);
        lemma_none_written(cells, end - 1);
    }
}

/// A character without width joins the nearest written column before the cursor,
/// while that one has room for marks; where no such column is written it is lost.
/// The cursor stays.
pub proof fn law_marks_join_the_column_before(view: TermView, mark: char, place: int)
    requires
        view.bounded(),
        char_columns(mark) is None || char_columns(mark) == Some(0usize),
        -1 <= place < view.cursor,
        place < view.cells.len(),
        place >= 0 ==> view.cells[place] is Some,
        forall|i: int|
            place < i < view.cursor && i < view.cells.len() ==> #[trigger] view.cells[i] is None,
    ensures
        ({
            let after = view.apply(TermAction::Print(mark));
            &&& place == -1 ==> after == view
            &&& place >= 0 && view.cells[place]->0.len() <= 16 ==> after == (TermView {
                cells: view.cells.update(place, Some(view.cells[place]->0.push(mark))),
                ..view
            })
            &&& place >= 0 && view.cells[place]->0.len() > 16 ==> after == view
        }),
{
    let end = min_int(view.cursor, view.cells.len() as int);
    if place >= 0 {
        lemma_nearest_written(view.cells, place, end);
    } else {
        lemma_none_written(view.cells, end);
    }
}

/// Columns that nothing was written to show as spaces between written ones, and do
/// not show behind the last one.
pub proof fn law_gaps_show_as_spaces(front: Seq<char>, gap: nat, back: Seq<char>)
    ensures
        ({
            let cells = text_cells(front) + Seq::new(gap, |i: int| None::<Seq<char>>) + text_cells(
                back,
            );
            &&& back.len() > 0 ==> visible_text(cells) == front + Seq::new(gap, |i: int| ' ') + back
            &&& back.len() == 0 ==> visible_text(cells) == front
        }),
    decreases back.len(), gap,
{
    let empty = Seq::new(gap, |i: int| None::<Seq<char>>);
    let spaces = Seq::new(gap, |i: int| ' ');
    let cells = text_cells(front) + empty + text_cells(back);
    lemma_gap_columns(front, gap, back, cells.len() as int);
    if back.len() > 0 {
        assert(cells[cells.len() - 1] is Some);
        assert((front + spaces + back).take(cells.len() as int) =~= front + spaces + back);
    } else if gap > 0 {
        let fewer = (gap - 1) as nat;
        law_gaps_show_as_spaces(front, fewer, back);
        let shorter = text_cells(front) + Seq::new(fewer, |i: int| None::<Seq<char>>) + text_cells(
            back,
        );
        assert(shorter.push(None) =~= cells);
        lemma_unwritten_end(shorter);
    } else {
        assert(cells =~= text_cells(front));
        lemma_text_is_seen(front);
    }
}

proof fn lemma_unwritten_end(cells: Seq<Option<Seq<char>>>)
    ensures
        visible_text(cells.push(None)) == visible_text(cells),
{
    let longer = cells.push(None);
    lemma_same_written(longer, cells, cells.len() as int);
    lemma_last_written(cells, cells.len() as int);
    lemma_same_columns(longer, cells, shown_columns(cells));
}

proof fn lemma_same_written(
    first: Seq<Option<Seq<char>>>,
    second: Seq<Option<Seq<char>>>,
    end: int,
)
    requires
        end <= first.len(),
        end <= second.len(),
        forall|i: int| 0 <= i < end ==> #[trigger] first[i] == second[i],
    ensures
        last_written(first, end) == last_written(second, end),
    decreases end,
{
    if end > 0 {
        assert(first[end - 1] == second[end - 1]);
        lemma_same_written(first, second, end - 1);
    }
}

proof fn lemma_same_columns(
    first: Seq<Option<Seq<char>>>,
    second: Seq<Option<Seq<char>>>,
    count: int,
)
    requires
        count <= first.len(),
        count <= second.len(),
        forall|i: int| 0 <= i < count ==> #[trigger] first[i] == second[i],
    ensures
        column_text(first, count) == column_text(second, count),
    decreases count,
{
    if count > 0 {
        assert(first[count - 1] == second[count - 1]);
        lemma_same_columns(first, second, count - 1);
    }
}

proof fn lemma_gap_columns(front: Seq<char>, gap: nat, back: Seq<char>, count: int)
    requires
        0 <= count <= front.len() + gap + back.len(),
    ensures
        column_text(
            text_cells(front) + Seq::new(gap, |i: int| None::<Seq<char>>) + text_cells(back),
            count,
        ) == (front + Seq::new(gap, |i: int| ' ') + back).take(count),
    decreases count,
{
    let cells = text_cells(front) + Seq::new(gap, |i: int| None::<Seq<char>>) + text_cells(back);
    let text = front + Seq::new(gap, |i: int| ' ') + back;
    if count > 0 {
        lemma_gap_columns(front, gap, back, count - 1);
        let here = match cells[count - 1] {
            Some(found) => found,
            None => seq![' '],
        };
        assert(here =~= seq![text[count - 1]]);
        assert(text.take(count) =~= text.take(count - 1) + here);
    } else {
        assert(text.take(0) =~= Seq::<char>::empty());
    }
}

/// The encoding of printable ASCII characters is their bytes.
pub proof fn lemma_ascii_text_bytes(bytes: Seq<u8>)
    requires
        is_printable(bytes),
    ensures
        encode_utf8(ascii_text(bytes)) == bytes,
{
    let text = ascii_text(bytes);
    assert(is_ascii_chars(text)) by {
        assert forall|i: int| 0 <= i < text.len() implies '\0' <= #[trigger] text[i]
            <= '\u{7f}' by {
            assert(bytes[i] <= 0x7e);
        }
    }
    is_ascii_chars_encode_utf8(text);
    assert(encode_utf8(text) =~= bytes) by {
        assert forall|i: int| 0 <= i < bytes.len() implies #[trigger] encode_utf8(text)[i]
            == bytes[i] by {
            assert(text[i] as u8 == encode_utf8(text)[i]);
            assert(bytes[i] <= 0x7e);
        }
    }
}

} // verus!
