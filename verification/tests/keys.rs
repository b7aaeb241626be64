use review_everything::input::{Action, InputState, KeyCode, KeyInput, ViewContext, CONTROL, SHIFT};

fn key(code: KeyCode, modifiers: u8) -> KeyInput {
    KeyInput { code, modifiers }
}

fn ch(c: char) -> KeyInput {
    key(KeyCode::Char(c), 0)
}

#[test]
fn keys_gg_goes_to_top() {
    let mut st = InputState::default();
    assert_eq!(st.handle_key(ch('g'), ViewContext::Diff), Action::Nothing);
    assert_eq!(st.pending, Some('g'));
    assert_eq!(st.handle_key(ch('g'), ViewContext::Diff), Action::ScrollToTop);
    assert_eq!(st.pending, None);
}

#[test]
fn keys_bracket_f_moves_between_files() {
    let mut st = InputState::default();
    assert_eq!(st.handle_key(ch(']'), ViewContext::Diff), Action::Nothing);
    assert_eq!(st.handle_key(ch('f'), ViewContext::Diff), Action::NextFile);
    assert_eq!(st.handle_key(ch('['), ViewContext::Diff), Action::Nothing);
    assert_eq!(st.handle_key(ch('f'), ViewContext::Diff), Action::PrevFile);
}

#[test]
fn keys_broken_sequence_yields_nothing() {
    let mut st = InputState::default();
    st.handle_key(ch('g'), ViewContext::Log);
    assert_eq!(st.handle_key(ch('j'), ViewContext::Log), Action::Nothing);
    assert_eq!(st.pending, None);
    assert_eq!(st.handle_key(ch('j'), ViewContext::Log), Action::ScrollDown(1));
}

#[test]
fn keys_bracket_outside_diff_is_not_a_sequence() {
    let mut st = InputState::default();
    assert_eq!(st.handle_key(ch(']'), ViewContext::Log), Action::Nothing);
    assert_eq!(st.pending, None);
}

#[test]
fn keys_single_bindings() {
    let mut st = InputState::default();
    assert_eq!(st.handle_key(ch('q'), ViewContext::Log), Action::Quit);
    assert_eq!(st.handle_key(key(KeyCode::Esc, SHIFT), ViewContext::Log), Action::Quit);
    assert_eq!(st.handle_key(key(KeyCode::Down, SHIFT), ViewContext::Diff), Action::ScrollDown(5));
    assert_eq!(st.handle_key(key(KeyCode::Down, CONTROL | SHIFT), ViewContext::Diff), Action::NextHunk);
    assert_eq!(st.handle_key(key(KeyCode::Up, CONTROL | SHIFT), ViewContext::Diff), Action::PrevHunk);
    assert_eq!(st.handle_key(key(KeyCode::Down, CONTROL), ViewContext::Diff), Action::ScrollToBottom);
    assert_eq!(st.handle_key(key(KeyCode::Char('G'), SHIFT), ViewContext::Diff), Action::ScrollToBottom);
    assert_eq!(st.handle_key(key(KeyCode::Char('d'), CONTROL), ViewContext::Diff), Action::HalfPageDown);
    assert_eq!(st.handle_key(ch('h'), ViewContext::Diff), Action::ScrollLeft(1));
    assert_eq!(st.handle_key(ch('h'), ViewContext::Tree), Action::Nothing);
    assert_eq!(st.handle_key(key(KeyCode::Tab, 0), ViewContext::Tree), Action::ToggleTreeFocus);
    assert_eq!(st.handle_key(ch('o'), ViewContext::Tree), Action::ToggleCollapse);
    assert_eq!(st.handle_key(ch('c'), ViewContext::Log), Action::StartCompare);
    assert_eq!(st.handle_key(ch('/'), ViewContext::Compare), Action::StartSearch);
    assert_eq!(st.handle_key(ch('/'), ViewContext::Diff), Action::Nothing);
    assert_eq!(st.handle_key(ch('r'), ViewContext::Diff), Action::ToggleReviewed);
    assert_eq!(st.handle_key(key(KeyCode::Char('R'), SHIFT), ViewContext::Tree), Action::ClearAllReviews);
    assert_eq!(st.handle_key(key(KeyCode::Enter, 0), ViewContext::Log), Action::Select);
    assert_eq!(st.handle_key(ch('?'), ViewContext::Diff), Action::ShowHelp);
}
