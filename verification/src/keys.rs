//! What keys mean in a session.
use crate::filter::lower;
use crate::text::push_char;
use vstd::prelude::*;
use vstd::utf8::*;

verus! {

/// A key.
#[derive(Debug, Clone, Copy, PartialEq, Eq, Structural)]
pub enum KeyCode {
    Char(char),
    Enter,
    Tab,
    Backspace,
    Delete,
    Up,
    Down,
    Left,
    Right,
    /// Any key that a session does not heed.
    Other,
}

/// The keys that are held down with a key.
#[derive(Debug, Clone, Copy, PartialEq, Eq, Structural)]
pub struct KeyModifiers {
    pub shift: bool,
    pub control: bool,
    pub alt: bool,
    /// Any further one.
    pub other: bool,
}

/// What happens to a key.
#[derive(Debug, Clone, Copy, PartialEq, Eq, Structural)]
pub enum KeyEventKind {
    Press,
    Repeat,
    Release,
}

/// Something that happens to a key.
#[derive(Debug, Clone, Copy, PartialEq, Eq, Structural)]
pub struct KeyEvent {
    pub code: KeyCode,
    pub modifiers: KeyModifiers,
    pub kind: KeyEventKind,
}

/// What the next key is taken for.
#[derive(Debug, Clone, Copy, PartialEq, Eq, Structural)]
pub enum EscapeState {
    Normal,
    AwaitingCommand,
}

/// A command to the session.
#[derive(Debug, Clone, Copy, PartialEq, Eq, Structural)]
pub enum SessionCommand {
    Quit,
    Help,
    ShowConfig,
    ClearScreen,
    ToggleTimestamps,
    ToggleLocalEcho,
    ResetTarget,
}

/// What a key asks for.
#[derive(Debug, PartialEq, Eq)]
pub enum InputAction {
    Send(Vec<u8>),
    Command(SessionCommand),
    Ignore,
}

/// What a key asks for, as a value.
pub enum ActionView {
    Send(Seq<u8>),
    Command(SessionCommand),
    Ignore,
}

impl View for InputAction {
    type V = ActionView;

    open spec fn view(&self) -> ActionView {
        match self {
            InputAction::Send(bytes) => ActionView::Send(bytes@),
            InputAction::Command(command) => ActionView::Command(*command),
            InputAction::Ignore => ActionView::Ignore,
        }
    }
}

impl KeyModifiers {
    /// No key is held down.
    pub open spec fn none(self) -> bool {
        !self.shift && !self.control && !self.alt && !self.other
    }

    /// No key is held down.
    pub fn is_empty(&self) -> (empty: bool)
        ensures
            empty == self.none(),
    {
        !self.shift && !self.control && !self.alt && !self.other
    }
}

/// A key is pressed with the control key alone.
pub open spec fn control_key(key: KeyEvent, character: char) -> bool {
    key.code == KeyCode::Char(character) && key.modifiers == (KeyModifiers {
        shift: false,
        control: true,
        alt: false,
        other: false,
    })
}

/// The bytes that a terminal sends for a key.
pub open spec fn key_bytes(key: KeyEvent) -> Seq<u8> {
    match key.code {
        KeyCode::Char(c) => if key.modifiers.control {
            if 'a' <= lower(c) <= 'z' {
                seq![(lower(c) as int - 'a' as int + 1) as u8]
            } else {
                Seq::empty()
            }
        } else if key.modifiers.alt {
            seq![0x1bu8] + encode_utf8(seq![c])
        } else {
            encode_utf8(seq![c])
        },
        KeyCode::Enter => seq![10u8],
        KeyCode::Tab => seq![9u8],
        KeyCode::Backspace => seq![8u8],
        KeyCode::Delete => seq![0x1bu8, 0x5b, 0x33, 0x7e],
        KeyCode::Up => seq![0x1bu8, 0x5b, 0x41],
        KeyCode::Down => seq![0x1bu8, 0x5b, 0x42],
        KeyCode::Left => seq![0x1bu8, 0x5b, 0x44],
        KeyCode::Right => seq![0x1bu8, 0x5b, 0x43],
        KeyCode::Other => Seq::empty(),
    }
}

/// What a key asks for that is meant for the target.
pub open spec fn key_action(key: KeyEvent) -> ActionView {
    if key_bytes(key).len() == 0 {
        ActionView::Ignore
    } else {
        ActionView::Send(key_bytes(key))
    }
}

/// The command that a key stands for behind Ctrl-T.
pub open spec fn key_command(key: KeyEvent) -> Option<SessionCommand> {
    let plain = key.modifiers.none();
    match key.code {
        KeyCode::Char(c) => if c == 'q' && plain {
            Some(SessionCommand::Quit)
        } else if c == '?' {
            Some(SessionCommand::Help)
        } else if c == 'c' && plain {
            Some(SessionCommand::ShowConfig)
        } else if c == 'l' && plain {
            Some(SessionCommand::ClearScreen)
        } else if c == 't' && plain {
            Some(SessionCommand::ToggleTimestamps)
        } else if c == 'e' && plain {
            Some(SessionCommand::ToggleLocalEcho)
        } else if c == 'R' {
            Some(SessionCommand::ResetTarget)
        } else {
            None
        },
        _ => None,
    }
}

/// The state after a key, and what the key asks for.
pub open spec fn handled(state: EscapeState, key: KeyEvent) -> (EscapeState, ActionView) {
    if key.kind == KeyEventKind::Release {
        (state, ActionView::Ignore)
    } else {
        match state {
            EscapeState::Normal => if control_key(key, 't') {
                (EscapeState::AwaitingCommand, ActionView::Ignore)
            } else {
                (EscapeState::Normal, key_action(key))
            },
            EscapeState::AwaitingCommand => (
                EscapeState::Normal,
                if control_key(key, 't') {
                    ActionView::Send(seq![0x14u8])
                } else {
                    match key_command(key) {
                        Some(command) => ActionView::Command(command),
                        None => key_action(key),
                    }
                },
            ),
        }
    }
}

fn is_control_key(key: KeyEvent, character: char) -> (is: bool)
    ensures
        is == control_key(key, character),
{
    match key.code {
        KeyCode::Char(c) => c == character && key.modifiers.control && !key.modifiers.shift
            && !key.modifiers.alt && !key.modifiers.other,
        _ => false,
    }
}

/// Decides what a key asks for that is meant for the target.
pub fn key_to_action(key: KeyEvent) -> (action: InputAction)
    ensures
        action@ == key_action(key),
{
    let mut bytes: Vec<u8> = Vec::new();
    match key.code {
        KeyCode::Char(c) => {
            if key.modifiers.control {
                if 'a' <= c && c <= 'z' {
                    bytes.push(c as u8 - 96);
                } else if 'A' <= c && c <= 'Z' {
                    bytes.push(c as u8 - 64);
                }
            } else if key.modifiers.alt {
                bytes.push(0x1b);
                push_char(&mut bytes, c);
            } else {
                push_char(&mut bytes, c);
            }
        },
        KeyCode::Enter => bytes.push(10),
        KeyCode::Tab => bytes.push(9),
        KeyCode::Backspace => bytes.push(8),
        KeyCode::Delete => {
            push_escape(&mut bytes, 0x33);
            bytes.push(0x7e);
        },
        KeyCode::Up => push_escape(&mut bytes, 0x41),
        KeyCode::Down => push_escape(&mut bytes, 0x42),
        KeyCode::Left => push_escape(&mut bytes, 0x44),
        KeyCode::Right => push_escape(&mut bytes, 0x43),
        KeyCode::Other => {},
    }
    assert(bytes@ =~= key_bytes(key));
    if bytes.len() == 0 {
        InputAction::Ignore
    } else {
        InputAction::Send(bytes)
    }
}

fn push_escape(bytes: &mut Vec<u8>, ending: u8)
    ensures
        final(bytes)@ == old(bytes)@ + seq![0x1bu8, 0x5b, ending],
{
    bytes.push(0x1b);
    bytes.push(0x5b);
    bytes.push(ending);
    assert(bytes@ =~= old(bytes)@ + seq![0x1bu8, 0x5b, ending]);
}

fn command_of(key: KeyEvent) -> (command: Option<SessionCommand>)
    ensures
        command == key_command(key),
{
    let plain = key.modifiers.is_empty();
    match key.code {
        KeyCode::Char(c) => {
            if c == 'q' && plain {
                Some(SessionCommand::Quit)
            } else if c == '?' {
                Some(SessionCommand::Help)
            } else if c == 'c' && plain {
                Some(SessionCommand::ShowConfig)
            } else if c == 'l' && plain {
                Some(SessionCommand::ClearScreen)
            } else if c == 't' && plain {
                Some(SessionCommand::ToggleTimestamps)
            } else if c == 'e' && plain {
                Some(SessionCommand::ToggleLocalEcho)
            } else if c == 'R' {
                Some(SessionCommand::ResetTarget)
            } else {
                None
            }
        },
        _ => None,
    }
}

impl EscapeState {
    /// Decides what a key asks for, and what the next one is taken for.
    pub fn handle_key(self, key: KeyEvent) -> (result: (Self, InputAction))
        ensures
            (result.0, result.1@) == handled(self, key),
    {
        if key.kind == KeyEventKind::Release {
            return (self, InputAction::Ignore);
        }
        match self {
            EscapeState::Normal => {
                if is_control_key(key, 't') {
                    (EscapeState::AwaitingCommand, InputAction::Ignore)
                } else {
                    (EscapeState::Normal, key_to_action(key))
                }
            },
            EscapeState::AwaitingCommand => {
                if is_control_key(key, 't') {
                    let mut literal: Vec<u8> = Vec::new();
                    literal.push(0x14);
                    assert(literal@ =~= seq![0x14u8]);
                    return (EscapeState::Normal, InputAction::Send(literal));
                }
                match command_of(key) {
                    Some(command) => (EscapeState::Normal, InputAction::Command(command)),
                    None => (EscapeState::Normal, key_to_action(key)),
                }
            },
        }
    }
}

/// Letting go of a key changes nothing and asks for nothing.
pub proof fn law_releases_change_nothing(state: EscapeState, key: KeyEvent)
    requires
        key.kind == KeyEventKind::Release,
    ensures
        handled(state, key) == (state, ActionView::Ignore),
{
}

/// Commands need Ctrl-T before them, and one key ends the wait for a command.
pub proof fn law_commands_need_the_escape_key(state: EscapeState, key: KeyEvent)
    ensures
        handled(state, key).1 is Command ==> state == EscapeState::AwaitingCommand,
        state == EscapeState::AwaitingCommand && key.kind != KeyEventKind::Release ==> handled(
            state,
            key,
        ).0 == EscapeState::Normal,
        handled(state, key).0 == EscapeState::AwaitingCommand && state == EscapeState::Normal
            ==> control_key(key, 't'),
{
}

/// Pressing Ctrl-T twice sends the byte that it stands for.
pub proof fn law_escape_key_can_be_sent(first: KeyEvent, second: KeyEvent)
    requires
        control_key(first, 't'),
        control_key(second, 't'),
        first.kind != KeyEventKind::Release,
        second.kind != KeyEventKind::Release,
    ensures
        handled(EscapeState::Normal, first).1 == ActionView::Ignore,
        handled(handled(EscapeState::Normal, first).0, second) == (
            EscapeState::Normal,
            ActionView::Send(seq![0x14u8]),
        ),
{
}

/// A character key without control and alt sends the UTF-8 encoding of its
/// character, whether or not the shift key is held.
pub proof fn law_characters_are_sent(key: KeyEvent, character: char)
    requires
        key.kind != KeyEventKind::Release,
        key.code == KeyCode::Char(character),
        !key.modifiers.control,
        !key.modifiers.alt,
    ensures
        handled(EscapeState::Normal, key) == (
            EscapeState::Normal,
            ActionView::Send(encode_utf8(seq![character])),
        ),
        key_action(key) == ActionView::Send(encode_utf8(seq![character])),
{
    lemma_characters_have_bytes(character);
}

proof fn lemma_characters_have_bytes(character: char)
    ensures
        encode_utf8(seq![character]).len() > 0,
{
    assert(encode_utf8(seq![character]) == encode_scalar(character as u32) + encode_utf8(
        seq![character].drop_first(),
    ));
}

/// The alt key puts an escape byte before what a character key sends.
pub proof fn law_alt_puts_an_escape_before(key: KeyEvent, character: char)
    requires
        key.kind != KeyEventKind::Release,
        key.code == KeyCode::Char(character),
        !key.modifiers.control,
        key.modifiers.alt,
    ensures
        ({
            let plain = KeyEvent {
                modifiers: KeyModifiers { alt: false, ..key.modifiers },
                ..key
            };
            &&& handled(EscapeState::Normal, plain).1 matches ActionView::Send(bytes) && handled(
                EscapeState::Normal,
                key,
            ) == (EscapeState::Normal, ActionView::Send(seq![0x1bu8] + bytes))
        }),
{
    lemma_characters_have_bytes(character);
}

/// The control key makes of a letter, small or capital, its number in the alphabet,
/// and lets other characters send nothing. Only Ctrl-T alone is kept from the
/// target.
pub proof fn law_control_letters_are_numbered(key: KeyEvent, character: char)
    requires
        key.kind != KeyEventKind::Release,
        key.code == KeyCode::Char(character),
        key.modifiers.control,
        !(character == 't' && !key.modifiers.shift && !key.modifiers.alt && !key.modifiers.other),
    ensures
        handled(EscapeState::Normal, key).0 == EscapeState::Normal,
        'a' <= character <= 'z' || 'A' <= character <= 'Z' ==> {
            &&& handled(EscapeState::Normal, key).1 matches ActionView::Send(bytes)
            &&& bytes.len() == 1
            &&& 1 <= bytes[0] <= 26
            &&& bytes[0] == character as int % 32
        },
        !('a' <= character <= 'z' || 'A' <= character <= 'Z') ==> handled(
            EscapeState::Normal,
            key,
        ).1 == ActionView::Ignore,
{
}

/// Ctrl-T, with no other key held, waits for a command and sends nothing; with a
/// further key held it does not wait.
pub proof fn law_escape_key_waits(key: KeyEvent)
    requires
        key.kind != KeyEventKind::Release,
        key.code == KeyCode::Char('t'),
        key.modifiers.control,
    ensures
        !key.modifiers.shift && !key.modifiers.alt && !key.modifiers.other ==> handled(
            EscapeState::Normal,
            key,
        ) == (EscapeState::AwaitingCommand, ActionView::Ignore) && handled(
            EscapeState::AwaitingCommand,
            key,
        ) == (EscapeState::Normal, ActionView::Send(seq![20u8])),
        key.modifiers.shift || key.modifiers.alt || key.modifiers.other ==> handled(
            EscapeState::Normal,
            key,
        ) == (EscapeState::Normal, ActionView::Send(seq![20u8])),
{
}

/// Enter, tab and backspace send their control characters, delete and the arrows
/// the sequences of a terminal, whatever keys are held and whether or not a command
/// is waited for; keys that a session does not heed send nothing.
pub proof fn law_other_keys_send_their_sequences(state: EscapeState, key: KeyEvent)
    requires
        key.kind != KeyEventKind::Release,
    ensures
        key.code == KeyCode::Enter ==> handled(state, key) == (
            EscapeState::Normal,
            ActionView::Send(seq![10u8]),
        ),
        key.code == KeyCode::Tab ==> handled(state, key) == (
            EscapeState::Normal,
            ActionView::Send(seq![9u8]),
        ),
        key.code == KeyCode::Backspace ==> handled(state, key) == (
            EscapeState::Normal,
            ActionView::Send(seq![8u8]),
        ),
        key.code == KeyCode::Delete ==> handled(state, key) == (
            EscapeState::Normal,
            ActionView::Send(seq![27u8, 91, 51, 126]),
        ),
        key.code == KeyCode::Up ==> handled(state, key) == (
            EscapeState::Normal,
            ActionView::Send(seq![27u8, 91, 65]),
        ),
        key.code == KeyCode::Down ==> handled(state, key) == (
            EscapeState::Normal,
            ActionView::Send(seq![27u8, 91, 66]),
        ),
        key.code == KeyCode::Right ==> handled(state, key) == (
            EscapeState::Normal,
            ActionView::Send(seq![27u8, 91, 67]),
        ),
        key.code == KeyCode::Left ==> handled(state, key) == (
            EscapeState::Normal,
            ActionView::Send(seq![27u8, 91, 68]),
        ),
        key.code == KeyCode::Other ==> handled(state, key) == (
            EscapeState::Normal,
            ActionView::Ignore,
        ),
{
}

/// Behind Ctrl-T a letter gives its command when no key is held with it; the
/// question mark and the capital R give theirs whatever keys are held.
pub proof fn law_letters_give_commands(key: KeyEvent, character: char)
    requires
        key.kind != KeyEventKind::Release,
        key.code == KeyCode::Char(character),
    ensures
        ({
            let held = key.modifiers.shift || key.modifiers.control || key.modifiers.alt
                || key.modifiers.other;
            let result = handled(EscapeState::AwaitingCommand, key);
            &&& result.0 == EscapeState::Normal
            &&& character == 'q' && !held ==> result.1 == ActionView::Command(SessionCommand::Quit)
            &&& character == 'c' && !held ==> result.1 == ActionView::Command(
                SessionCommand::ShowConfig,
            )
            &&& character == 'l' && !held ==> result.1 == ActionView::Command(
                SessionCommand::ClearScreen,
            )
            &&& character == 't' && !held ==> result.1 == ActionView::Command(
                SessionCommand::ToggleTimestamps,
            )
            &&& character == 'e' && !held ==> result.1 == ActionView::Command(
                SessionCommand::ToggleLocalEcho,
            )
            &&& character == '?' ==> result.1 == ActionView::Command(SessionCommand::Help)
            &&& character == 'R' ==> result.1 == ActionView::Command(SessionCommand::ResetTarget)
        }),
{
}

/// A key that gives no command behind Ctrl-T sends what it sends otherwise.
pub proof fn law_other_keys_are_sent_behind_the_escape_key(key: KeyEvent)
    requires
        key.kind != KeyEventKind::Release,
        key.code matches KeyCode::Char(c) ==> {
            let held = key.modifiers.shift || key.modifiers.control || key.modifiers.alt
                || key.modifiers.other;
            &&& c != '?' && c != 'R'
            &&& c == 'q' || c == 'c' || c == 'l' || c == 'e' ==> held
            &&& c == 't' ==> held && !(key.modifiers.control && !key.modifiers.shift
                && !key.modifiers.alt && !key.modifiers.other)
        },
    ensures
        handled(EscapeState::AwaitingCommand, key) == handled(EscapeState::Normal, key),
{
}

/// A key that is held down counts each time as if it were pressed.
pub proof fn law_repeats_are_presses(state: EscapeState, key: KeyEvent)
    ensures
        handled(state, KeyEvent { kind: KeyEventKind::Repeat, ..key }) == handled(
            state,
            KeyEvent { kind: KeyEventKind::Press, ..key },
        ),
{
}

} // verus!
