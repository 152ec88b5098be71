//! The key bindings: which command a key press gives in each mode.
use vstd::prelude::*;
use crate::state::AppMode;

verus! {

/// A key, as the terminal reports it.
#[derive(Clone, Copy, Debug, PartialEq, Eq, Structural)]
pub enum Key {
    Char(char),
    Esc,
    Enter,
    Backspace,
    Tab,
    BackTab,
    Up,
    Down,
    Home,
    End,
    PageUp,
    PageDown,
    Other,
}

/// What a key press asks for.
#[derive(Clone, Copy, Debug, PartialEq, Eq, Structural)]
pub enum Command {
    Quit,
    /// Close the tab, or quit when it is the last one.
    CloseTab,
    /// Scroll the reader one page down or up.
    PageDown,
    PageUp,
    /// Clear the search and the task filter.
    ClearFilters,
    OpenFilePicker,
    ToggleTaskFilter,
    OpenThemePicker,
    OpenHelp,
    StartSearch,
    NextTask,
    PrevTask,
    NextMatch,
    PrevMatch,
    /// Edit the file in the user's editor.
    Edit,
    /// Fold or unfold the heading under the cursor.
    Activate,
    FoldAll,
    UnfoldAll,
    ToggleCheckbox,
    NextTab,
    PrevTab,
    CursorDown,
    CursorUp,
    CursorTop,
    CursorBottom,
    SelectDown,
    SelectUp,
    SelectFirst,
    SelectLast,
    SelectPageDown,
    SelectPageUp,
    OpenSelected,
    CloseFilePicker,
    FilterPop,
    FilterPush(char),
    CancelSearch,
    AcceptSearch,
    QueryPop,
    QueryPush(char),
    NextTheme,
    PrevTheme,
    FirstTheme,
    LastTheme,
    ConfirmTheme,
    CancelTheme,
    CloseHelp,
    /// The key does nothing here.
    Nothing,
}

/// The reader's bindings.
pub open spec fn reader_binding(key: Key, ctrl: bool) -> Command {
    match key {
        Key::Char('q') => Command::Quit,
        Key::Char('W') => Command::CloseTab,
        Key::Esc => Command::ClearFilters,
        Key::Char('f') => if ctrl {
            Command::PageDown
        } else {
            Command::OpenFilePicker
        },
        Key::Char('b') => if ctrl {
            Command::PageUp
        } else {
            Command::Nothing
        },
        Key::PageDown => Command::PageDown,
        Key::PageUp => Command::PageUp,
        Key::Char('F') => Command::ToggleTaskFilter,
        Key::Char('u') => Command::ToggleTaskFilter,
        Key::Char('t') => Command::OpenThemePicker,
        Key::Char('?') => Command::OpenHelp,
        Key::Char('/') => Command::StartSearch,
        Key::Char('n') => if ctrl {
            Command::NextTask
        } else {
            Command::NextMatch
        },
        Key::Char('p') => if ctrl {
            Command::PrevTask
        } else {
            Command::Nothing
        },
        Key::Char('N') => Command::PrevMatch,
        Key::Char('e') => Command::Edit,
        Key::Enter => Command::Activate,
        Key::Char('[') => Command::FoldAll,
        Key::Char(']') => Command::UnfoldAll,
        Key::Char('x') => Command::ToggleCheckbox,
        Key::Char(' ') => Command::ToggleCheckbox,
        Key::Tab => Command::NextTab,
        Key::BackTab => Command::PrevTab,
        Key::Char('j') => Command::CursorDown,
        Key::Down => Command::CursorDown,
        Key::Char('k') => Command::CursorUp,
        Key::Up => Command::CursorUp,
        Key::Home => Command::CursorTop,
        Key::Char('g') => Command::CursorTop,
        Key::End => Command::CursorBottom,
        Key::Char('G') => Command::CursorBottom,
        _ => Command::Nothing,
    }
}

/// The file picker's bindings: printable keys type into the filter.
pub open spec fn picker_binding(key: Key, ctrl: bool) -> Command {
    match key {
        Key::Down => Command::SelectDown,
        Key::Up => Command::SelectUp,
        Key::Home => Command::SelectFirst,
        Key::End => Command::SelectLast,
        Key::PageDown => Command::SelectPageDown,
        Key::PageUp => Command::SelectPageUp,
        Key::Enter => Command::OpenSelected,
        Key::Esc => Command::CloseFilePicker,
        Key::Backspace => Command::FilterPop,
        Key::Char(c) => if ctrl && c == 'j' {
            Command::SelectDown
        } else if ctrl && c == 'k' {
            Command::SelectUp
        } else {
            Command::FilterPush(c)
        },
        _ => Command::Nothing,
    }
}

/// The search prompt's bindings: printable keys type into the query.
pub open spec fn search_binding(key: Key) -> Command {
    match key {
        Key::Esc => Command::CancelSearch,
        Key::Enter => Command::AcceptSearch,
        Key::Backspace => Command::QueryPop,
        Key::Char(c) => Command::QueryPush(c),
        _ => Command::Nothing,
    }
}

/// The theme picker's bindings.
pub open spec fn theme_binding(key: Key) -> Command {
    match key {
        Key::Char('j') => Command::NextTheme,
        Key::Down => Command::NextTheme,
        Key::Char('k') => Command::PrevTheme,
        Key::Up => Command::PrevTheme,
        Key::Home => Command::FirstTheme,
        Key::End => Command::LastTheme,
        Key::Enter => Command::ConfirmTheme,
        Key::Esc => Command::CancelTheme,
        _ => Command::Nothing,
    }
}

/// The help's bindings.
pub open spec fn help_binding(key: Key) -> Command {
    match key {
        Key::Esc => Command::CloseHelp,
        Key::Char('?') => Command::CloseHelp,
        Key::Enter => Command::CloseHelp,
        _ => Command::Nothing,
    }
}

/// The command for a key press in `mode`: Ctrl-C quits everywhere, otherwise
/// the mode's bindings decide.
pub open spec fn spec_command(mode: AppMode, key: Key, ctrl: bool) -> Command {
    if ctrl && key == Key::Char('c') {
        Command::Quit
    } else {
        match mode {
            AppMode::Reader => reader_binding(key, ctrl),
            AppMode::FilePicker => picker_binding(key, ctrl),
            AppMode::Search => search_binding(key),
            AppMode::ThemePicker { .. } => theme_binding(key),
            AppMode::Help => help_binding(key),
        }
    }
}

fn reader_command(key: Key, ctrl: bool) -> (c: Command)
    ensures
        c == reader_binding(key, ctrl),
{
    match key {
        Key::Char('q') => Command::Quit,
        Key::Char('W') => Command::CloseTab,
        Key::Esc => Command::ClearFilters,
        Key::Char('f') => if ctrl {
            Command::PageDown
        } else {
            Command::OpenFilePicker
        },
        Key::Char('b') => if ctrl {
            Command::PageUp
        } else {
            Command::Nothing
        },
        Key::PageDown => Command::PageDown,
        Key::PageUp => Command::PageUp,
        Key::Char('F') => Command::ToggleTaskFilter,
        Key::Char('u') => Command::ToggleTaskFilter,
        Key::Char('t') => Command::OpenThemePicker,
        Key::Char('?') => Command::OpenHelp,
        Key::Char('/') => Command::StartSearch,
        Key::Char('n') => if ctrl {
            Command::NextTask
        } else {
            Command::NextMatch
        },
        Key::Char('p') => if ctrl {
            Command::PrevTask
        } else {
            Command::Nothing
        },
        Key::Char('N') => Command::PrevMatch,
        Key::Char('e') => Command::Edit,
        Key::Enter => Command::Activate,
        Key::Char('[') => Command::FoldAll,
        Key::Char(']') => Command::UnfoldAll,
        Key::Char('x') | Key::Char(' ') => Command::ToggleCheckbox,
        Key::Tab => Command::NextTab,
        Key::BackTab => Command::PrevTab,
        Key::Char('j') | Key::Down => Command::CursorDown,
        Key::Char('k') | Key::Up => Command::CursorUp,
        Key::Home | Key::Char('g') => Command::CursorTop,
        Key::End | Key::Char('G') => Command::CursorBottom,
        _ => Command::Nothing,
    }
}

fn picker_command(key: Key, ctrl: bool) -> (c: Command)
    ensures
        c == picker_binding(key, ctrl),
{
    match key {
        Key::Down => Command::SelectDown,
        Key::Up => Command::SelectUp,
        Key::Home => Command::SelectFirst,
        Key::End => Command::SelectLast,
        Key::PageDown => Command::SelectPageDown,
        Key::PageUp => Command::SelectPageUp,
        Key::Enter => Command::OpenSelected,
        Key::Esc => Command::CloseFilePicker,
        Key::Backspace => Command::FilterPop,
        Key::Char(c) => if ctrl && c == 'j' {
            Command::SelectDown
        } else if ctrl && c == 'k' {
            Command::SelectUp
        } else {
            Command::FilterPush(c)
        },
        _ => Command::Nothing,
    }
}

/// The command that pressing `key` (with Ctrl held, if `ctrl`) gives in `mode`.
pub fn command_for(mode: AppMode, key: Key, ctrl: bool) -> (c: Command)
    ensures
        c == spec_command(mode, key, ctrl),
{
    if ctrl && key == Key::Char('c') {
        return Command::Quit;
    }
    match mode {
        AppMode::Reader => reader_command(key, ctrl),
        AppMode::FilePicker => picker_command(key, ctrl),
        AppMode::Search => match key {
            Key::Esc => Command::CancelSearch,
            Key::Enter => Command::AcceptSearch,
            Key::Backspace => Command::QueryPop,
            Key::Char(c) => Command::QueryPush(c),
            _ => Command::Nothing,
        },
        AppMode::ThemePicker { .. } => match key {
            Key::Char('j') | Key::Down => Command::NextTheme,
            Key::Char('k') | Key::Up => Command::PrevTheme,
            Key::Home => Command::FirstTheme,
            Key::End => Command::LastTheme,
            Key::Enter => Command::ConfirmTheme,
            Key::Esc => Command::CancelTheme,
            _ => Command::Nothing,
        },
        AppMode::Help => match key {
            Key::Esc | Key::Char('?') | Key::Enter => Command::CloseHelp,
            _ => Command::Nothing,
        },
    }
}

} // verus!

verus! {

/// Ctrl-C quits in every mode.
pub proof fn lemma_ctrl_c_quits(mode: AppMode)
    ensures
        spec_command(mode, Key::Char('c'), true) == Command::Quit,
{
}

/// The reader's keys do what its key table (the README's and the help's) says:
/// the two keys of each row give the same command, keys of different rows give
/// different ones; arrows, Home, End, page keys, Enter, Tab and Esc do so
/// whether Ctrl is held or not.
pub proof fn lemma_reader_keys_as_documented(ctrl: bool)
    ensures
        spec_command(AppMode::Reader, Key::Char('j'), false) == Command::CursorDown,
        spec_command(AppMode::Reader, Key::Down, ctrl) == Command::CursorDown,
        spec_command(AppMode::Reader, Key::Char('k'), false) == Command::CursorUp,
        spec_command(AppMode::Reader, Key::Up, ctrl) == Command::CursorUp,
        spec_command(AppMode::Reader, Key::Char('f'), true) == Command::PageDown,
        spec_command(AppMode::Reader, Key::PageDown, ctrl) == Command::PageDown,
        spec_command(AppMode::Reader, Key::Char('b'), true) == Command::PageUp,
        spec_command(AppMode::Reader, Key::PageUp, ctrl) == Command::PageUp,
        spec_command(AppMode::Reader, Key::Char('g'), false) == Command::CursorTop,
        spec_command(AppMode::Reader, Key::Home, ctrl) == Command::CursorTop,
        spec_command(AppMode::Reader, Key::Char('G'), false) == Command::CursorBottom,
        spec_command(AppMode::Reader, Key::End, ctrl) == Command::CursorBottom,
        spec_command(AppMode::Reader, Key::Enter, ctrl) == Command::Activate,
        spec_command(AppMode::Reader, Key::Char('x'), false) == Command::ToggleCheckbox,
        spec_command(AppMode::Reader, Key::Char(' '), false) == Command::ToggleCheckbox,
        spec_command(AppMode::Reader, Key::Char('n'), true) == Command::NextTask,
        spec_command(AppMode::Reader, Key::Char('p'), true) == Command::PrevTask,
        spec_command(AppMode::Reader, Key::Char('F'), false) == Command::ToggleTaskFilter,
        spec_command(AppMode::Reader, Key::Char('/'), false) == Command::StartSearch,
        spec_command(AppMode::Reader, Key::Char('n'), false) == Command::NextMatch,
        spec_command(AppMode::Reader, Key::Char('N'), false) == Command::PrevMatch,
        spec_command(AppMode::Reader, Key::Char('f'), false) == Command::OpenFilePicker,
        spec_command(AppMode::Reader, Key::Char('t'), false) == Command::OpenThemePicker,
        spec_command(AppMode::Reader, Key::Char('e'), false) == Command::Edit,
        spec_command(AppMode::Reader, Key::Tab, ctrl) == Command::NextTab,
        spec_command(AppMode::Reader, Key::BackTab, ctrl) == Command::PrevTab,
        spec_command(AppMode::Reader, Key::Char('W'), false) == Command::CloseTab,
        spec_command(AppMode::Reader, Key::Char('?'), false) == Command::OpenHelp,
        spec_command(AppMode::Reader, Key::Char('q'), false) == Command::Quit,
        spec_command(AppMode::Reader, Key::Char('c'), true) == Command::Quit,
        spec_command(AppMode::Reader, Key::Esc, ctrl) == Command::ClearFilters,
        spec_command(AppMode::Reader, Key::Char('G'), false) == spec_command(AppMode::Reader, Key::End, ctrl),
        spec_command(AppMode::Reader, Key::Char('g'), false) == spec_command(AppMode::Reader, Key::Home, ctrl),
        spec_command(AppMode::Reader, Key::Char('G'), false) != spec_command(AppMode::Reader, Key::Char('g'), false),
        spec_command(AppMode::Reader, Key::Char('j'), false) != spec_command(AppMode::Reader, Key::Char('k'), false),
{
}

} // verus!
