//! What a key press means, while the Markdown source is edited and while the
//! document is read. The window delivers the event; this decides the command,
//! and the caller runs it against the editor, the clipboard or the file dialogs.
use vstd::prelude::*;
use crate::strings::chars_of;

verus! {

/// The physical keys the source editor reacts to.
#[derive(Clone, Copy, Debug, PartialEq, Eq, Structural)]
pub enum Key {
    F,
    F2,
    Backspace,
    Delete,
    Enter,
    ArrowLeft,
    ArrowRight,
    ArrowUp,
    ArrowDown,
    Home,
    End,
    A,
    C,
    V,
    S,
    N,
    O,
    I,
    R,
    Z,
    Y,
    Escape,
    B,
    T,
    Tab,
    PageUp,
    PageDown,
    Other,
}

#[derive(Clone, Copy, Debug, Default, PartialEq, Eq, Structural)]
pub struct Modifiers {
    pub control: bool,
    pub shift: bool,
    pub alt: bool,
    pub logo: bool,
}

/// The line endings a document was read with.
#[derive(Clone, Copy, Debug, PartialEq, Eq, Structural)]
pub enum LineEndings {
    /// The document has no line break.
    Absent,
    Lf,
    CrLf,
    Mixed,
}

#[derive(Clone, Copy, Debug, PartialEq, Eq, Structural)]
pub enum SourceCommand {
    Ignore,
    OpenWorkspaceSearch,
    OpenDocumentSearch,
    /// Insert the text the key produced.
    InsertText,
    RefreshReading,
    Backspace,
    Delete,
    /// A line break; with Shift, preceded by a backslash hard break.
    InsertLineBreak { hard: bool },
    MoveLeft { extend: bool },
    MoveRight { extend: bool },
    MoveLine { down: bool, extend: bool },
    MoveLineBoundary { end: bool, extend: bool },
    SelectAll,
    Copy,
    Paste,
    SaveAs,
    Save,
    New,
    ChooseWorkspace,
    ChooseDocument,
    Reindex,
    RestoreRecovery,
    Undo,
    Redo,
    CollapseSelection,
}

/// The control characters, general category `Cc`, as `char::is_control`.
pub open spec fn is_control(c: char) -> bool {
    c <= '\u{1F}' || ('\u{7F}' <= c && c <= '\u{9F}')
}

/// The text a key press types into the source: none with Control, Alt or
/// the logo key, none for Enter, and none if empty or holding a control
/// character, so that shortcuts never become content.
pub open spec fn typed_text(modifiers: Modifiers, key: Key, text: Option<Seq<char>>) -> Option<Seq<char>> {
    if modifiers.control || modifiers.alt || modifiers.logo || key == Key::Enter {
        None
    } else {
        match text {
            Some(t) => if t.len() > 0 && forall|i: int| 0 <= i < t.len() ==> !is_control(#[trigger] t[i]) {
                Some(t)
            } else {
                None
            },
            None => None,
        }
    }
}

pub fn direct_source_text<'a>(modifiers: Modifiers, key: Key, text: Option<&'a str>) -> (r: Option<&'a str>)
    ensures
        match r {
            Some(t) => typed_text(modifiers, key, match text {
                Some(x) => Some(x@),
                None => None,
            }) == Some(t@),
            None => typed_text(modifiers, key, match text {
                Some(x) => Some(x@),
                None => None,
            }) is None,
        },
{
    if modifiers.control || modifiers.alt || modifiers.logo {
        return None;
    }
    match key {
        Key::Enter => return None,
        _ => {},
    }
    let t = match text {
        Some(t) => t,
        None => return None,
    };
    let chars = chars_of(t);
    if chars.len() == 0 {
        return None;
    }
    let mut i: usize = 0;
    while i < chars.len()
        invariant
            chars@ == t@,
            text == Some(t),
            !modifiers.control && !modifiers.alt && !modifiers.logo,
            key != Key::Enter,
            i <= chars@.len(),
            forall|j: int| 0 <= j < i ==> !is_control(#[trigger] t@[j]),
        decreases chars@.len() - i,
    {
        let c = chars[i];
        if c <= '\u{1F}' || ('\u{7F}' <= c && c <= '\u{9F}') {
            assert(is_control(t@[i as int]));
            assert(!(forall|j: int| 0 <= j < t@.len() ==> !is_control(#[trigger] t@[j])));
            return None;
        }
        i = i + 1;
    }
    Some(t)
}

/// The command a key press stands for in the source editor.
pub open spec fn command_for(
    pressed: bool,
    repeat: bool,
    key: Key,
    m: Modifiers,
    text: Option<Seq<char>>,
) -> SourceCommand {
    if !pressed {
        SourceCommand::Ignore
    } else if !repeat && m.control && key == Key::F {
        if m.shift {
            SourceCommand::OpenWorkspaceSearch
        } else {
            SourceCommand::OpenDocumentSearch
        }
    } else if typed_text(m, key, text) is Some {
        SourceCommand::InsertText
    } else if repeat {
        SourceCommand::Ignore
    } else {
        match key {
            Key::F2 => SourceCommand::RefreshReading,
            Key::Backspace => SourceCommand::Backspace,
            Key::Delete => SourceCommand::Delete,
            Key::Enter => SourceCommand::InsertLineBreak { hard: m.shift },
            Key::ArrowLeft => SourceCommand::MoveLeft { extend: m.shift },
            Key::ArrowRight => SourceCommand::MoveRight { extend: m.shift },
            Key::ArrowUp => SourceCommand::MoveLine { down: false, extend: m.shift },
            Key::ArrowDown => SourceCommand::MoveLine { down: true, extend: m.shift },
            Key::Home => SourceCommand::MoveLineBoundary { end: false, extend: m.shift },
            Key::End => SourceCommand::MoveLineBoundary { end: true, extend: m.shift },
            Key::A => if m.control {
                SourceCommand::SelectAll
            } else {
                SourceCommand::Ignore
            },
            Key::C => if m.control {
                SourceCommand::Copy
            } else {
                SourceCommand::Ignore
            },
            Key::V => if m.control {
                SourceCommand::Paste
            } else {
                SourceCommand::Ignore
            },
            Key::S => if m.control && m.shift {
                SourceCommand::SaveAs
            } else if m.control {
                SourceCommand::Save
            } else {
                SourceCommand::Ignore
            },
            Key::N => if m.control {
                SourceCommand::New
            } else {
                SourceCommand::Ignore
            },
            Key::O => if m.control && m.shift {
                SourceCommand::ChooseWorkspace
            } else if m.control {
                SourceCommand::ChooseDocument
            } else {
                SourceCommand::Ignore
            },
            Key::I => if m.control && m.shift {
                SourceCommand::Reindex
            } else {
                SourceCommand::Ignore
            },
            Key::R => if m.control && m.shift {
                SourceCommand::RestoreRecovery
            } else {
                SourceCommand::Ignore
            },
            Key::Z => if m.control {
                SourceCommand::Undo
            } else {
                SourceCommand::Ignore
            },
            Key::Y => if m.control {
                SourceCommand::Redo
            } else {
                SourceCommand::Ignore
            },
            Key::Escape => SourceCommand::CollapseSelection,
            _ => SourceCommand::Ignore,
        }
    }
}

/// Undo and redo in the source editor: a fresh press of Z with Control held
/// undoes and one of Y redoes, whatever else is held and whatever text the
/// key carries; nothing else undoes or redoes.
pub proof fn lemma_undo_redo_keys(
    pressed: bool,
    repeat: bool,
    key: Key,
    m: Modifiers,
    text: Option<Seq<char>>,
)
    ensures
        m.control ==> command_for(true, false, Key::Z, m, text) == SourceCommand::Undo,
        m.control ==> command_for(true, false, Key::Y, m, text) == SourceCommand::Redo,
        command_for(pressed, repeat, key, m, text) == SourceCommand::Undo ==> pressed && !repeat
            && key == Key::Z && m.control,
        command_for(pressed, repeat, key, m, text) == SourceCommand::Redo ==> pressed && !repeat
            && key == Key::Y && m.control,
{
}

pub fn source_key_command(
    pressed: bool,
    repeat: bool,
    key: Key,
    modifiers: Modifiers,
    text: Option<&str>,
) -> (c: SourceCommand)
    ensures
        c == command_for(pressed, repeat, key, modifiers, match text {
            Some(x) => Some(x@),
            None => None,
        }),
{
    if !pressed {
        return SourceCommand::Ignore;
    }
    let is_f = match key {
        Key::F => true,
        _ => false,
    };
    if !repeat && modifiers.control && is_f {
        return if modifiers.shift {
            SourceCommand::OpenWorkspaceSearch
        } else {
            SourceCommand::OpenDocumentSearch
        };
    }
    if direct_source_text(modifiers, key, text).is_some() {
        return SourceCommand::InsertText;
    }
    if repeat {
        return SourceCommand::Ignore;
    }
    let control = modifiers.control;
    let shift = modifiers.shift;
    match key {
        Key::F2 => SourceCommand::RefreshReading,
        Key::Backspace => SourceCommand::Backspace,
        Key::Delete => SourceCommand::Delete,
        Key::Enter => SourceCommand::InsertLineBreak { hard: shift },
        Key::ArrowLeft => SourceCommand::MoveLeft { extend: shift },
        Key::ArrowRight => SourceCommand::MoveRight { extend: shift },
        Key::ArrowUp => SourceCommand::MoveLine { down: false, extend: shift },
        Key::ArrowDown => SourceCommand::MoveLine { down: true, extend: shift },
        Key::Home => SourceCommand::MoveLineBoundary { end: false, extend: shift },
        Key::End => SourceCommand::MoveLineBoundary { end: true, extend: shift },
        Key::A if control => SourceCommand::SelectAll,
        Key::C if control => SourceCommand::Copy,
        Key::V if control => SourceCommand::Paste,
        Key::S if control && shift => SourceCommand::SaveAs,
        Key::S if control => SourceCommand::Save,
        Key::N if control => SourceCommand::New,
        Key::O if control && shift => SourceCommand::ChooseWorkspace,
        Key::O if control => SourceCommand::ChooseDocument,
        Key::I if control && shift => SourceCommand::Reindex,
        Key::R if control && shift => SourceCommand::RestoreRecovery,
        Key::Z if control => SourceCommand::Undo,
        Key::Y if control => SourceCommand::Redo,
        Key::Escape => SourceCommand::CollapseSelection,
        _ => SourceCommand::Ignore,
    }
}

pub open spec fn line_break(endings: LineEndings, hard: bool) -> Seq<char> {
    let eol = if endings == LineEndings::CrLf {
        "\r\n"@
    } else {
        "\n"@
    };
    if hard {
        "\\"@ + eol
    } else {
        eol
    }
}

/// The text Enter inserts: the document's own line ending, after a
/// backslash when a hard break was asked for.
pub fn line_break_text(endings: LineEndings, hard: bool) -> (t: String)
    ensures
        t@ == line_break(endings, hard),
{
    let eol = match endings {
        LineEndings::CrLf => "\r\n",
        _ => "\n",
    };
    if hard {
        let mut t = String::from_str("\\");
        t.append(eol);
        t
    } else {
        String::from_str(eol)
    }
}

/// What a key press asks of the reading view, once no search, backlink list
/// or source editor has taken it.
#[derive(Clone, Copy, Debug, PartialEq, Eq, Structural)]
pub enum ReadingCommand {
    Ignore,
    OpenWorkspaceSearch,
    OpenDocumentSearch,
    RestoreRecovery,
    Reindex,
    ChooseWorkspace,
    ShowBacklinks,
    ChooseDocument,
    New,
    SaveAs,
    Save,
    Undo,
    EnterSourceMode,
    /// Drop the selection and the focused link.
    ClearFocus,
    MoveLine { down: bool, extend: bool },
    MoveVisually { forward: bool, extend: bool },
    MoveBoundary { end: bool, document: bool, extend: bool },
    ScrollPage { down: bool },
    SelectAll,
    /// Copy the selection, as Markdown source or as the text it shows.
    Copy { markdown: bool },
    OpenFocusedLink,
    MoveLinkFocus { backwards: bool },
    ToggleTheme,
}

/// The command a key press stands for while reading. Only a fresh press
/// counts; Control with Shift reaches the workspace-wide commands.
pub open spec fn reading_command_for(pressed: bool, repeat: bool, key: Key, m: Modifiers) -> ReadingCommand {
    let both = m.control && m.shift;
    if !pressed || repeat {
        ReadingCommand::Ignore
    } else {
        match key {
            Key::F => if both {
                ReadingCommand::OpenWorkspaceSearch
            } else if m.control {
                ReadingCommand::OpenDocumentSearch
            } else {
                ReadingCommand::Ignore
            },
            Key::R => if both { ReadingCommand::RestoreRecovery } else { ReadingCommand::Ignore },
            Key::I => if both { ReadingCommand::Reindex } else { ReadingCommand::Ignore },
            Key::B => if both { ReadingCommand::ShowBacklinks } else { ReadingCommand::Ignore },
            Key::O => if both {
                ReadingCommand::ChooseWorkspace
            } else if m.control {
                ReadingCommand::ChooseDocument
            } else {
                ReadingCommand::Ignore
            },
            Key::N => if m.control { ReadingCommand::New } else { ReadingCommand::Ignore },
            Key::S => if both {
                ReadingCommand::SaveAs
            } else if m.control {
                ReadingCommand::Save
            } else {
                ReadingCommand::Ignore
            },
            Key::Z => if m.control { ReadingCommand::Undo } else { ReadingCommand::Ignore },
            Key::F2 => ReadingCommand::EnterSourceMode,
            Key::Escape => ReadingCommand::ClearFocus,
            Key::ArrowUp => ReadingCommand::MoveLine { down: false, extend: m.shift },
            Key::ArrowDown => ReadingCommand::MoveLine { down: true, extend: m.shift },
            Key::ArrowLeft => ReadingCommand::MoveVisually { forward: false, extend: m.shift },
            Key::ArrowRight => ReadingCommand::MoveVisually { forward: true, extend: m.shift },
            Key::Home => ReadingCommand::MoveBoundary { end: false, document: m.control, extend: m.shift },
            Key::End => ReadingCommand::MoveBoundary { end: true, document: m.control, extend: m.shift },
            Key::PageUp => ReadingCommand::ScrollPage { down: false },
            Key::PageDown => ReadingCommand::ScrollPage { down: true },
            Key::A => if m.control { ReadingCommand::SelectAll } else { ReadingCommand::Ignore },
            Key::C => if m.control { ReadingCommand::Copy { markdown: m.shift } } else { ReadingCommand::Ignore },
            Key::Enter => ReadingCommand::OpenFocusedLink,
            Key::Tab => ReadingCommand::MoveLinkFocus { backwards: m.shift },
            Key::T => ReadingCommand::ToggleTheme,
            _ => ReadingCommand::Ignore,
        }
    }
}

pub fn reading_key_command(pressed: bool, repeat: bool, key: Key, modifiers: Modifiers) -> (c: ReadingCommand)
    ensures
        c == reading_command_for(pressed, repeat, key, modifiers),
{
    if !pressed || repeat {
        return ReadingCommand::Ignore;
    }
    let control = modifiers.control;
    let shift = modifiers.shift;
    let both = control && shift;
    match key {
        Key::F if both => ReadingCommand::OpenWorkspaceSearch,
        Key::F if control => ReadingCommand::OpenDocumentSearch,
        Key::R if both => ReadingCommand::RestoreRecovery,
        Key::I if both => ReadingCommand::Reindex,
        Key::B if both => ReadingCommand::ShowBacklinks,
        Key::O if both => ReadingCommand::ChooseWorkspace,
        Key::O if control => ReadingCommand::ChooseDocument,
        Key::N if control => ReadingCommand::New,
        Key::S if both => ReadingCommand::SaveAs,
        Key::S if control => ReadingCommand::Save,
        Key::Z if control => ReadingCommand::Undo,
        Key::F2 => ReadingCommand::EnterSourceMode,
        Key::Escape => ReadingCommand::ClearFocus,
        Key::ArrowUp => ReadingCommand::MoveLine { down: false, extend: shift },
        Key::ArrowDown => ReadingCommand::MoveLine { down: true, extend: shift },
        Key::ArrowLeft => ReadingCommand::MoveVisually { forward: false, extend: shift },
        Key::ArrowRight => ReadingCommand::MoveVisually { forward: true, extend: shift },
        Key::Home => ReadingCommand::MoveBoundary { end: false, document: control, extend: shift },
        Key::End => ReadingCommand::MoveBoundary { end: true, document: control, extend: shift },
        Key::PageUp => ReadingCommand::ScrollPage { down: false },
        Key::PageDown => ReadingCommand::ScrollPage { down: true },
        Key::A if control => ReadingCommand::SelectAll,
        Key::C if control => ReadingCommand::Copy { markdown: shift },
        Key::Enter => ReadingCommand::OpenFocusedLink,
        Key::Tab => ReadingCommand::MoveLinkFocus { backwards: shift },
        Key::T => ReadingCommand::ToggleTheme,
        _ => ReadingCommand::Ignore,
    }
}

/// Who receives a key press: an open panel first, then the source editor,
/// then the reading view.
#[derive(Clone, Copy, Debug, PartialEq, Eq, Structural)]
pub enum KeyRoute {
    WorkspaceSearch,
    Backlinks,
    DocumentSearch,
    SourceEditor,
    Reading,
}

pub fn key_route(workspace_search_open: bool, backlinks_open: bool, search_open: bool, editing_source: bool) -> (r: KeyRoute)
    ensures
        r == (if workspace_search_open {
            KeyRoute::WorkspaceSearch
        } else if backlinks_open {
            KeyRoute::Backlinks
        } else if search_open {
            KeyRoute::DocumentSearch
        } else if editing_source {
            KeyRoute::SourceEditor
        } else {
            KeyRoute::Reading
        }),
{
    if workspace_search_open {
        KeyRoute::WorkspaceSearch
    } else if backlinks_open {
        KeyRoute::Backlinks
    } else if search_open {
        KeyRoute::DocumentSearch
    } else if editing_source {
        KeyRoute::SourceEditor
    } else {
        KeyRoute::Reading
    }
}

/// What a key press does in an open panel listing matches.
#[derive(Clone, Copy, Debug, PartialEq, Eq, Structural)]
pub enum PanelCommand {
    Ignore,
    Close,
    /// Drop the last character of the query.
    Erase,
    Next,
    Previous,
    /// Open the chosen match.
    Open,
}

/// The panels: the workspace search and the backlinks move with the arrows
/// and open with Enter; the document search steps with Enter, backwards with
/// Shift. Only the searches have a query to erase.
pub open spec fn panel_command_for(route: KeyRoute, pressed: bool, repeat: bool, key: Key, shift: bool) -> PanelCommand {
    if !pressed || repeat {
        PanelCommand::Ignore
    } else {
        match route {
            KeyRoute::WorkspaceSearch | KeyRoute::Backlinks => match key {
                Key::Escape => PanelCommand::Close,
                Key::Backspace => if route == KeyRoute::WorkspaceSearch { PanelCommand::Erase } else { PanelCommand::Ignore },
                Key::ArrowDown => PanelCommand::Next,
                Key::ArrowUp => PanelCommand::Previous,
                Key::Enter => PanelCommand::Open,
                _ => PanelCommand::Ignore,
            },
            KeyRoute::DocumentSearch => match key {
                Key::Escape => PanelCommand::Close,
                Key::Backspace => PanelCommand::Erase,
                Key::Enter => if shift { PanelCommand::Previous } else { PanelCommand::Next },
                _ => PanelCommand::Ignore,
            },
            _ => PanelCommand::Ignore,
        }
    }
}

pub fn panel_key_command(route: KeyRoute, pressed: bool, repeat: bool, key: Key, shift: bool) -> (c: PanelCommand)
    ensures
        c == panel_command_for(route, pressed, repeat, key, shift),
{
    if !pressed || repeat {
        return PanelCommand::Ignore;
    }
    match route {
        KeyRoute::WorkspaceSearch | KeyRoute::Backlinks => match key {
            Key::Escape => PanelCommand::Close,
            Key::Backspace => match route {
                KeyRoute::WorkspaceSearch => PanelCommand::Erase,
                _ => PanelCommand::Ignore,
            },
            Key::ArrowDown => PanelCommand::Next,
            Key::ArrowUp => PanelCommand::Previous,
            Key::Enter => PanelCommand::Open,
            _ => PanelCommand::Ignore,
        },
        KeyRoute::DocumentSearch => match key {
            Key::Escape => PanelCommand::Close,
            Key::Backspace => PanelCommand::Erase,
            Key::Enter => if shift {
                PanelCommand::Previous
            } else {
                PanelCommand::Next
            },
            _ => PanelCommand::Ignore,
        },
        _ => PanelCommand::Ignore,
    }
}

/// The match chosen after a step through `count` matches: forwards,
/// backwards, or staying, always wrapping around; with no match, none.
pub open spec fn stepped_match(current: int, count: int, step: int) -> Option<int> {
    if count <= 0 {
        None
    } else if step > 0 {
        Some((current + 1) % count)
    } else if step < 0 {
        Some((current + count - 1) % count)
    } else {
        Some(current % count)
    }
}

pub fn step_match(current: usize, count: usize, step: i8) -> (r: Option<usize>)
    ensures
        match r {
            Some(m) => stepped_match(current as int, count as int, step as int) == Some(m as int) && m < count,
            None => stepped_match(current as int, count as int, step as int) is None,
        },
{
    if count == 0 {
        return None;
    }
    let m = current % count;
    proof {
        let n = count as int;
        let c = current as int;
        vstd::arithmetic::div_mod::lemma_small_mod(m as nat, count as nat);
        vstd::arithmetic::div_mod::lemma_add_mod_noop(c, 1, n);
        vstd::arithmetic::div_mod::lemma_add_mod_noop(m as int, 1, n);
        vstd::arithmetic::div_mod::lemma_add_mod_noop(c, n - 1, n);
        vstd::arithmetic::div_mod::lemma_add_mod_noop(m as int, n - 1, n);
    }
    if step > 0 {
        Some((m + 1) % count)
    } else if step < 0 {
        proof {
            let n = count as int;
            if m == 0 {
                vstd::arithmetic::div_mod::lemma_small_mod((n - 1) as nat, n as nat);
            } else {
                vstd::arithmetic::div_mod::lemma_small_mod((m - 1) as nat, n as nat);
                vstd::arithmetic::div_mod::lemma_mod_self_0(n);
                vstd::arithmetic::div_mod::lemma_add_mod_noop(m - 1, n, n);
                assert(m as int + n - 1 == (m - 1) + n);
            }
        }
        Some(if m == 0 {
            count - 1
        } else {
            m - 1
        })
    } else {
        Some(m)
    }
}

} // verus!
