//! Keyboard input handling and multi-key sequence resolution.

use vstd::prelude::*;

verus! {

/// Modifier bit of Shift.
pub const SHIFT: u8 = 0x01u8;

/// Modifier bit of Control.
pub const CONTROL: u8 = 0x02u8;

/// Actions that key input can trigger.
#[derive(Debug, Clone, Copy, PartialEq, Eq, Structural)]
pub enum Action {
    Quit,
    ScrollDown(usize),
    ScrollUp(usize),
    ScrollToTop,
    ScrollToBottom,
    ScrollLeft(usize),
    ScrollRight(usize),
    ScrollToLineStart,
    ScrollToLineEnd,
    HalfPageDown,
    HalfPageUp,
    NextHunk,
    PrevHunk,
    NextFile,
    PrevFile,
    ToggleTreeFocus,
    ToggleTree,
    Select,
    ToggleCollapse,
    StartCompare,
    StartSearch,
    StartDiffFind,
    RefreshDiff,
    ToggleReviewed,
    ClearAllReviews,
    ShowHelp,
    Nothing,
}

/// The view a key is pressed in.
#[derive(Debug, Clone, Copy, PartialEq, Eq, Structural)]
pub enum ViewContext {
    Log,
    Diff,
    Tree,
    Compare,
}

/// A key, as the terminal reports it.
#[derive(Debug, Clone, Copy, PartialEq, Eq, Structural)]
pub enum KeyCode {
    Backspace,
    Enter,
    Left,
    Right,
    Up,
    Down,
    Tab,
    Esc,
    Char(char),
    /// Any other key.
    Other,
}

/// A key press: the key and the modifier bits held. Bindings read Shift
/// (`SHIFT`, 1) and Control (`CONTROL`, 2) and compare the whole set of bits,
/// so any other bit set (the terminal front end sets 4 for Alt, Super, Hyper
/// or Meta) makes the press match no binding that names a modifier set.
#[derive(Debug, Clone, Copy, PartialEq, Eq, Structural)]
pub struct KeyInput {
    pub code: KeyCode,
    pub modifiers: u8,
}

/// Pending key state for multi-key sequences like `gg`, `]f`, `[f`.
#[derive(Debug)]
pub struct InputState {
    /// First key of a sequence waiting for its second key.
    pub pending: Option<char>,
}

impl Default for InputState {
    fn default() -> (r: InputState)
        ensures
            r.pending is None,
    {
        InputState { pending: None }
    }
}

/// Both Control and Shift are held.
pub open spec fn ctrl_shift(m: u8) -> bool {
    m & 0x03u8 == 0x03u8
}

/// The view is the diff pane or the tree.
pub open spec fn in_diff_or_tree(view: ViewContext) -> bool {
    view == ViewContext::Diff || view == ViewContext::Tree
}

/// The action that the second key of a pending sequence completes.
pub open spec fn sequence_action(prev: char, code: KeyCode, view: ViewContext) -> Action {
    if prev == 'g' && code == KeyCode::Char('g') {
        Action::ScrollToTop
    } else if prev == ']' && code == KeyCode::Char('f') && view == ViewContext::Diff {
        Action::NextFile
    } else if prev == '[' && code == KeyCode::Char('f') && view == ViewContext::Diff {
        Action::PrevFile
    } else {
        Action::Nothing
    }
}

/// The key starts a two-key sequence: `g` anywhere, `]` and `[` in the diff pane,
/// with no modifier.
pub open spec fn starts_sequence(code: KeyCode, m: u8, view: ViewContext) -> bool {
    m == 0 && (code == KeyCode::Char('g') || (view == ViewContext::Diff && (code
        == KeyCode::Char(']') || code == KeyCode::Char('['))))
}

/// The binding table for single keys.
pub open spec fn single_key_action(code: KeyCode, m: u8, view: ViewContext) -> Action {
    if (code == KeyCode::Char('q') && m == 0) || code == KeyCode::Esc {
        Action::Quit
    } else if code == KeyCode::Char('?') && m == 0 {
        Action::ShowHelp
    } else if (code == KeyCode::Char('j') || code == KeyCode::Down) && m == 0 {
        Action::ScrollDown(1)
    } else if (code == KeyCode::Char('k') || code == KeyCode::Up) && m == 0 {
        Action::ScrollUp(1)
    } else if code == KeyCode::Down && m == SHIFT {
        Action::ScrollDown(5)
    } else if code == KeyCode::Up && m == SHIFT {
        Action::ScrollUp(5)
    } else if code == KeyCode::Down && ctrl_shift(m) {
        Action::NextHunk
    } else if code == KeyCode::Up && ctrl_shift(m) {
        Action::PrevHunk
    } else if code == KeyCode::Down && m == CONTROL {
        Action::ScrollToBottom
    } else if code == KeyCode::Up && m == CONTROL {
        Action::ScrollToTop
    } else if code == KeyCode::Char('G') && m == SHIFT {
        Action::ScrollToBottom
    } else if code == KeyCode::Char('d') && m == CONTROL {
        Action::HalfPageDown
    } else if code == KeyCode::Char('u') && m == CONTROL {
        Action::HalfPageUp
    } else if (code == KeyCode::Char('h') || code == KeyCode::Left) && m == 0 && view
        == ViewContext::Diff {
        Action::ScrollLeft(1)
    } else if (code == KeyCode::Char('l') || code == KeyCode::Right) && m == 0 && view
        == ViewContext::Diff {
        Action::ScrollRight(1)
    } else if code == KeyCode::Left && m == SHIFT {
        Action::ScrollLeft(5)
    } else if code == KeyCode::Right && m == SHIFT {
        Action::ScrollRight(5)
    } else if code == KeyCode::Left && m == CONTROL {
        Action::ScrollToLineStart
    } else if code == KeyCode::Right && m == CONTROL {
        Action::ScrollToLineEnd
    } else if code == KeyCode::Tab && m == 0 && in_diff_or_tree(view) {
        Action::ToggleTreeFocus
    } else if code == KeyCode::Char('t') && m == 0 && in_diff_or_tree(view) {
        Action::ToggleTree
    } else if code == KeyCode::Enter && m == 0 {
        Action::Select
    } else if code == KeyCode::Char('o') && m == 0 && view == ViewContext::Tree {
        Action::ToggleCollapse
    } else if code == KeyCode::Char('c') && m == 0 && view == ViewContext::Log {
        Action::StartCompare
    } else if code == KeyCode::Char('/') && m == 0 && (view == ViewContext::Log || view
        == ViewContext::Compare) {
        Action::StartSearch
    } else if code == KeyCode::Char('r') && m == 0 && in_diff_or_tree(view) {
        Action::ToggleReviewed
    } else if code == KeyCode::Char('R') && m == SHIFT && in_diff_or_tree(view) {
        Action::ClearAllReviews
    } else {
        Action::Nothing
    }
}

/// The action a key press yields and the pending sequence key it leaves.
pub open spec fn spec_handle_key(pending: Option<char>, key: KeyInput, view: ViewContext) -> (
    Action,
    Option<char>,
) {
    match pending {
        Some(prev) => (sequence_action(prev, key.code, view), None),
        None => if starts_sequence(key.code, key.modifiers, view) {
            (
                Action::Nothing,
                match key.code {
                    KeyCode::Char(c) => Some(c),
                    _ => None,
                },
            )
        } else {
            (single_key_action(key.code, key.modifiers, view), None)
        },
    }
}

/// Whether both Control and Shift are held.
fn is_ctrl_shift(m: u8) -> (r: bool)
    ensures
        r == ctrl_shift(m),
{
    m & 0x03u8 == 0x03u8
}

impl InputState {
    /// Resolves a key press in `view` to an action. A pending sequence key is
    /// consumed by the next press, which completes it or yields nothing; a
    /// sequence start is remembered and yields nothing; any other key goes
    /// through the binding table.
    pub fn handle_key(&mut self, key: KeyInput, view: ViewContext) -> (r: Action)
        ensures
            (r, final(self).pending) == spec_handle_key(old(self).pending, key, view),
            old(self).pending matches Some(prev) ==> r == sequence_action(prev, key.code, view)
                && final(self).pending is None,
            old(self).pending is None && starts_sequence(key.code, key.modifiers, view) ==> r
                == Action::Nothing && (key.code matches KeyCode::Char(c) && final(self).pending
                == Some(c)),
            old(self).pending is None && !starts_sequence(key.code, key.modifiers, view) ==> r
                == single_key_action(key.code, key.modifiers, view) && final(self).pending
                is None,
    {
        let m = key.modifiers;
        let code = key.code;
        if let Some(prev) = self.pending {
            self.pending = None;
            return if prev == 'g' && code == KeyCode::Char('g') {
                Action::ScrollToTop
            } else if prev == ']' && code == KeyCode::Char('f') && view == ViewContext::Diff {
                Action::NextFile
            } else if prev == '[' && code == KeyCode::Char('f') && view == ViewContext::Diff {
                Action::PrevFile
            } else {
                Action::Nothing
            };
        }
        if m == 0 {
            if code == KeyCode::Char('g') {
                self.pending = Some('g');
                return Action::Nothing;
            }
            if view == ViewContext::Diff && code == KeyCode::Char(']') {
                self.pending = Some(']');
                return Action::Nothing;
            }
            if view == ViewContext::Diff && code == KeyCode::Char('[') {
                self.pending = Some('[');
                return Action::Nothing;
            }
        }
        let diff_or_tree = view == ViewContext::Diff || view == ViewContext::Tree;
        if (code == KeyCode::Char('q') && m == 0) || code == KeyCode::Esc {
            Action::Quit
        } else if code == KeyCode::Char('?') && m == 0 {
            Action::ShowHelp
        } else if (code == KeyCode::Char('j') || code == KeyCode::Down) && m == 0 {
            Action::ScrollDown(1)
        } else if (code == KeyCode::Char('k') || code == KeyCode::Up) && m == 0 {
            Action::ScrollUp(1)
        } else if code == KeyCode::Down && m == SHIFT {
            Action::ScrollDown(5)
        } else if code == KeyCode::Up && m == SHIFT {
            Action::ScrollUp(5)
        } else if code == KeyCode::Down && is_ctrl_shift(m) {
            Action::NextHunk
        } else if code == KeyCode::Up && is_ctrl_shift(m) {
            Action::PrevHunk
        } else if code == KeyCode::Down && m == CONTROL {
            Action::ScrollToBottom
        } else if code == KeyCode::Up && m == CONTROL {
            Action::ScrollToTop
        } else if code == KeyCode::Char('G') && m == SHIFT {
            Action::ScrollToBottom
        } else if code == KeyCode::Char('d') && m == CONTROL {
            Action::HalfPageDown
        } else if code == KeyCode::Char('u') && m == CONTROL {
            Action::HalfPageUp
        } else if (code == KeyCode::Char('h') || code == KeyCode::Left) && m == 0 && view
            == ViewContext::Diff {
            Action::ScrollLeft(1)
        } else if (code == KeyCode::Char('l') || code == KeyCode::Right) && m == 0 && view
            == ViewContext::Diff {
            Action::ScrollRight(1)
        } else if code == KeyCode::Left && m == SHIFT {
            Action::ScrollLeft(5)
        } else if code == KeyCode::Right && m == SHIFT {
            Action::ScrollRight(5)
        } else if code == KeyCode::Left && m == CONTROL {
            Action::ScrollToLineStart
        } else if code == KeyCode::Right && m == CONTROL {
            Action::ScrollToLineEnd
        } else if code == KeyCode::Tab && m == 0 && diff_or_tree {
            Action::ToggleTreeFocus
        } else if code == KeyCode::Char('t') && m == 0 && diff_or_tree {
            Action::ToggleTree
        } else if code == KeyCode::Enter && m == 0 {
            Action::Select
        } else if code == KeyCode::Char('o') && m == 0 && view == ViewContext::Tree {
            Action::ToggleCollapse
        } else if code == KeyCode::Char('c') && m == 0 && view == ViewContext::Log {
            Action::StartCompare
        } else if code == KeyCode::Char('/') && m == 0 && (view == ViewContext::Log || view
            == ViewContext::Compare) {
            Action::StartSearch
        } else if code == KeyCode::Char('r') && m == 0 && diff_or_tree {
            Action::ToggleReviewed
        } else if code == KeyCode::Char('R') && m == SHIFT && diff_or_tree {
            Action::ClearAllReviews
        } else {
            Action::Nothing
        }
    }
}

/// The action of pressing `code` with modifiers `m` in `view` when no
/// sequence key is pending.
pub open spec fn pressed(code: KeyCode, m: u8, view: ViewContext) -> Action {
    spec_handle_key(None, KeyInput { code, modifiers: m }, view).0
}

/// The key bindings, key by key: what each bound key does in every view
/// (with no sequence pending), the views where a view-bound key does nothing,
/// and the two-key sequences `gg`, `]f` and `[f`.
pub proof fn law_key_bindings(view: ViewContext, m: u8)
    ensures
        pressed(KeyCode::Char('q'), 0, view) == Action::Quit,
        pressed(KeyCode::Esc, m, view) == Action::Quit,
        pressed(KeyCode::Char('?'), 0, view) == Action::ShowHelp,
        pressed(KeyCode::Char('j'), 0, view) == Action::ScrollDown(1),
        pressed(KeyCode::Down, 0, view) == Action::ScrollDown(1),
        pressed(KeyCode::Char('k'), 0, view) == Action::ScrollUp(1),
        pressed(KeyCode::Up, 0, view) == Action::ScrollUp(1),
        pressed(KeyCode::Down, SHIFT, view) == Action::ScrollDown(5),
        pressed(KeyCode::Up, SHIFT, view) == Action::ScrollUp(5),
        pressed(KeyCode::Down, CONTROL | SHIFT, view) == Action::NextHunk,
        pressed(KeyCode::Up, CONTROL | SHIFT, view) == Action::PrevHunk,
        pressed(KeyCode::Down, CONTROL, view) == Action::ScrollToBottom,
        pressed(KeyCode::Up, CONTROL, view) == Action::ScrollToTop,
        pressed(KeyCode::Char('G'), SHIFT, view) == Action::ScrollToBottom,
        pressed(KeyCode::Char('d'), CONTROL, view) == Action::HalfPageDown,
        pressed(KeyCode::Char('u'), CONTROL, view) == Action::HalfPageUp,
        pressed(KeyCode::Char('h'), 0, view) == if view == ViewContext::Diff {
            Action::ScrollLeft(1)
        } else {
            Action::Nothing
        },
        pressed(KeyCode::Left, 0, view) == if view == ViewContext::Diff {
            Action::ScrollLeft(1)
        } else {
            Action::Nothing
        },
        pressed(KeyCode::Char('l'), 0, view) == if view == ViewContext::Diff {
            Action::ScrollRight(1)
        } else {
            Action::Nothing
        },
        pressed(KeyCode::Right, 0, view) == if view == ViewContext::Diff {
            Action::ScrollRight(1)
        } else {
            Action::Nothing
        },
        pressed(KeyCode::Left, SHIFT, view) == Action::ScrollLeft(5),
        pressed(KeyCode::Right, SHIFT, view) == Action::ScrollRight(5),
        pressed(KeyCode::Left, CONTROL, view) == Action::ScrollToLineStart,
        pressed(KeyCode::Right, CONTROL, view) == Action::ScrollToLineEnd,
        pressed(KeyCode::Tab, 0, view) == if view == ViewContext::Diff || view == ViewContext::Tree {
            Action::ToggleTreeFocus
        } else {
            Action::Nothing
        },
        pressed(KeyCode::Char('t'), 0, view) == if view == ViewContext::Diff || view == ViewContext::Tree {
            Action::ToggleTree
        } else {
            Action::Nothing
        },
        pressed(KeyCode::Enter, 0, view) == Action::Select,
        pressed(KeyCode::Char('o'), 0, view) == if view == ViewContext::Tree {
            Action::ToggleCollapse
        } else {
            Action::Nothing
        },
        pressed(KeyCode::Char('c'), 0, view) == if view == ViewContext::Log {
            Action::StartCompare
        } else {
            Action::Nothing
        },
        pressed(KeyCode::Char('/'), 0, view) == if view == ViewContext::Log || view == ViewContext::Compare {
            Action::StartSearch
        } else {
            Action::Nothing
        },
        pressed(KeyCode::Char('r'), 0, view) == if view == ViewContext::Diff || view == ViewContext::Tree {
            Action::ToggleReviewed
        } else {
            Action::Nothing
        },
        pressed(KeyCode::Char('R'), SHIFT, view) == if view == ViewContext::Diff || view == ViewContext::Tree {
            Action::ClearAllReviews
        } else {
            Action::Nothing
        },
        pressed(KeyCode::Char('x'), 0, view) == Action::Nothing,
        spec_handle_key(None, KeyInput { code: KeyCode::Char('g'), modifiers: 0 }, view) == (
            Action::Nothing,
            Some('g'),
        ),
        spec_handle_key(Some('g'), KeyInput { code: KeyCode::Char('g'), modifiers: m }, view) == (
            Action::ScrollToTop,
            None::<char>,
        ),
        view == ViewContext::Diff ==> spec_handle_key(None, KeyInput { code: KeyCode::Char(']'), modifiers: 0 }, view)
            == (Action::Nothing, Some(']')),
        view == ViewContext::Diff ==> spec_handle_key(None, KeyInput { code: KeyCode::Char('['), modifiers: 0 }, view)
            == (Action::Nothing, Some('[')),
        spec_handle_key(Some(']'), KeyInput { code: KeyCode::Char('f'), modifiers: m }, view).0 == if view
            == ViewContext::Diff {
            Action::NextFile
        } else {
            Action::Nothing
        },
        spec_handle_key(Some('['), KeyInput { code: KeyCode::Char('f'), modifiers: m }, view).0 == if view
            == ViewContext::Diff {
            Action::PrevFile
        } else {
            Action::Nothing
        },
{
    assert((CONTROL | SHIFT) & 0x03u8 == 0x03u8) by (bit_vector);
    assert(CONTROL | SHIFT == 3u8) by (bit_vector);
    assert(SHIFT & 0x03u8 != 0x03u8) by (bit_vector);
    assert(CONTROL & 0x03u8 != 0x03u8) by (bit_vector);
    assert(0u8 & 0x03u8 != 0x03u8) by (bit_vector);
}

} // verus!
