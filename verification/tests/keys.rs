use brtt::keys::{
    EscapeState, InputAction, KeyCode, KeyEvent, KeyEventKind, KeyModifiers, SessionCommand,
};

const NONE: KeyModifiers = KeyModifiers { shift: false, control: false, alt: false, other: false };
const SHIFT: KeyModifiers = KeyModifiers { shift: true, control: false, alt: false, other: false };
const CONTROL: KeyModifiers = KeyModifiers { shift: false, control: true, alt: false, other: false };
const ALT: KeyModifiers = KeyModifiers { shift: false, control: false, alt: true, other: false };

fn key(code: KeyCode, modifiers: KeyModifiers) -> KeyEvent {
    KeyEvent { code, modifiers, kind: KeyEventKind::Press }
}

#[test]
fn ctrl_t_enters_command_mode_without_sending() {
    let (state, action) = EscapeState::Normal.handle_key(key(KeyCode::Char('t'), CONTROL));

    assert_eq!(state, EscapeState::AwaitingCommand);
    assert_eq!(action, InputAction::Ignore);
}

#[test]
fn ctrl_t_q_quits() {
    let (state, action) = EscapeState::AwaitingCommand.handle_key(key(KeyCode::Char('q'), NONE));

    assert_eq!(state, EscapeState::Normal);
    assert_eq!(action, InputAction::Command(SessionCommand::Quit));
}

#[test]
fn ctrl_t_question_requests_help() {
    let (state, action) = EscapeState::AwaitingCommand.handle_key(key(KeyCode::Char('?'), SHIFT));

    assert_eq!(state, EscapeState::Normal);
    assert_eq!(action, InputAction::Command(SessionCommand::Help));
}

#[test]
fn ctrl_t_core_commands_dispatch_to_their_commands() {
    for (character, command) in [
        ('c', SessionCommand::ShowConfig),
        ('l', SessionCommand::ClearScreen),
        ('t', SessionCommand::ToggleTimestamps),
        ('e', SessionCommand::ToggleLocalEcho),
    ] {
        assert_eq!(
            EscapeState::AwaitingCommand.handle_key(key(KeyCode::Char(character), NONE)),
            (EscapeState::Normal, InputAction::Command(command))
        );
    }

    assert_eq!(
        EscapeState::AwaitingCommand.handle_key(key(KeyCode::Char('R'), SHIFT)),
        (EscapeState::Normal, InputAction::Command(SessionCommand::ResetTarget))
    );
}

#[test]
fn ctrl_t_ctrl_t_sends_literal_ctrl_t() {
    let (state, action) = EscapeState::AwaitingCommand.handle_key(key(KeyCode::Char('t'), CONTROL));

    assert_eq!(state, EscapeState::Normal);
    assert_eq!(action, InputAction::Send(vec![0x14]));
}

#[test]
fn ctrl_c_is_forwarded_to_the_target() {
    assert_eq!(
        EscapeState::Normal.handle_key(key(KeyCode::Char('c'), CONTROL)),
        (EscapeState::Normal, InputAction::Send(vec![0x03]))
    );
}

#[test]
fn ordinary_keys_keep_existing_encoding() {
    assert_eq!(
        EscapeState::Normal.handle_key(key(KeyCode::Char('x'), NONE)),
        (EscapeState::Normal, InputAction::Send(b"x".to_vec()))
    );
    assert_eq!(
        EscapeState::Normal.handle_key(key(KeyCode::Enter, NONE)),
        (EscapeState::Normal, InputAction::Send(vec![b'\n']))
    );
    assert_eq!(
        EscapeState::Normal.handle_key(key(KeyCode::Up, NONE)),
        (EscapeState::Normal, InputAction::Send(b"\x1b[A".to_vec()))
    );
}

#[test]
fn every_named_key_has_its_encoding() {
    for (code, bytes) in [
        (KeyCode::Tab, &b"\t"[..]),
        (KeyCode::Backspace, &b"\x08"[..]),
        (KeyCode::Delete, &b"\x1b[3~"[..]),
        (KeyCode::Down, &b"\x1b[B"[..]),
        (KeyCode::Left, &b"\x1b[D"[..]),
        (KeyCode::Right, &b"\x1b[C"[..]),
        (KeyCode::Char('ż'), "ż".as_bytes()),
    ] {
        assert_eq!(
            EscapeState::Normal.handle_key(key(code, NONE)),
            (EscapeState::Normal, InputAction::Send(bytes.to_vec()))
        );
    }
    assert_eq!(
        EscapeState::Normal.handle_key(key(KeyCode::Other, NONE)),
        (EscapeState::Normal, InputAction::Ignore)
    );
    assert_eq!(
        EscapeState::Normal.handle_key(key(KeyCode::Char('1'), CONTROL)),
        (EscapeState::Normal, InputAction::Ignore)
    );
    assert_eq!(
        EscapeState::Normal.handle_key(key(KeyCode::Char('Z'), CONTROL)),
        (EscapeState::Normal, InputAction::Send(vec![26]))
    );
}

#[test]
fn control_and_alt_keys_keep_terminal_encoding() {
    assert_eq!(
        EscapeState::Normal.handle_key(key(KeyCode::Char('a'), CONTROL)),
        (EscapeState::Normal, InputAction::Send(vec![1]))
    );
    assert_eq!(
        EscapeState::Normal.handle_key(key(KeyCode::Char('u'), CONTROL)),
        (EscapeState::Normal, InputAction::Send(vec![21]))
    );
    assert_eq!(
        EscapeState::Normal.handle_key(key(KeyCode::Char('b'), ALT)),
        (EscapeState::Normal, InputAction::Send(b"\x1bb".to_vec()))
    );
}

#[test]
fn repeated_keys_are_forwarded() {
    let mut repeated = key(KeyCode::Char('x'), NONE);
    repeated.kind = KeyEventKind::Repeat;

    assert_eq!(
        EscapeState::Normal.handle_key(repeated),
        (EscapeState::Normal, InputAction::Send(b"x".to_vec()))
    );
}

#[test]
fn unknown_command_keys_pass_through_and_reset_state() {
    assert_eq!(
        EscapeState::AwaitingCommand.handle_key(key(KeyCode::Char('x'), NONE)),
        (EscapeState::Normal, InputAction::Send(b"x".to_vec()))
    );
}

#[test]
fn key_releases_do_not_change_escape_state() {
    let mut released = key(KeyCode::Char('t'), CONTROL);
    released.kind = KeyEventKind::Release;

    assert_eq!(
        EscapeState::Normal.handle_key(released),
        (EscapeState::Normal, InputAction::Ignore)
    );
    assert_eq!(
        EscapeState::AwaitingCommand.handle_key(released),
        (EscapeState::AwaitingCommand, InputAction::Ignore)
    );
}

#[test]
fn commands_with_modifiers_are_not_commands() {
    assert_eq!(
        EscapeState::AwaitingCommand.handle_key(key(KeyCode::Char('q'), ALT)),
        (EscapeState::Normal, InputAction::Send(b"\x1bq".to_vec()))
    );
}
