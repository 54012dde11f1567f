//! The key table: which action a key press asks for, given the modal state.
//! Performing the action is the caller's part.

use vstd::prelude::*;

verus! {

/// A key, as far as the table tells keys apart.
#[derive(Clone, Copy, Debug, PartialEq, Eq, Structural)]
pub enum Key {
    Char(char),
    Esc,
    Enter,
    Backspace,
    Up,
    Down,
    Left,
    Right,
    Home,
    End,
    Other,
}

/// The modifiers held with a key. `other` is any further modifier (alt,
/// super, hyper, meta).
#[derive(Clone, Copy, Debug, PartialEq, Eq, Structural)]
pub struct KeyMods {
    pub ctrl: bool,
    pub shift: bool,
    pub other: bool,
}

/// The modal state that decides where a key goes.
#[derive(Clone, Copy, Debug, PartialEq, Eq, Structural)]
pub struct KeyModes {
    /// The fuzzy-find prompt is taking input.
    pub filtering: bool,
    pub show_help: bool,
    pub show_theme: bool,
    pub show_queue: bool,
    /// A filter query is applied to the list.
    pub filter_active: bool,
}

/// What a key press asks for.
#[derive(Clone, Copy, Debug, PartialEq, Eq, Structural)]
pub enum KeyAction {
    /// The key goes to the fuzzy-find prompt.
    FilterKey,
    CloseHelp,
    /// The key goes to the theme picker.
    ThemeKey,
    /// The key goes to the queue manager.
    QueueKey,
    ClearFilter,
    Quit,
    ShowHelp,
    StartFilter,
    /// Move the cursor by this many rows.
    Move(i32),
    Top,
    Bottom,
    Collapse,
    Expand,
    Enter,
    TogglePause,
    /// Next (`1`) or previous (`-1`) track.
    PlayRelative(i32),
    /// Back to the previously played song.
    PreviousTrack,
    CycleLoop,
    ToggleShuffle,
    ToggleGapless,
    QueueAppend,
    QueuePlayNext,
    ToggleQueue,
    WriteQueue,
    JumpToNowPlaying,
    /// Seek by this many seconds.
    SeekRel(i32),
    /// Change the volume by this many percent.
    VolRel(i32),
    /// Step the scope preset forward (`1`) or back (`-1`).
    CycleScope(i32),
    /// Step the color theme forward (`1`) or back (`-1`).
    CycleTheme(i32),
    OpenThemePicker,
    ToggleCoverArt,
    CopySelection,
    CopyNowPlaying,
    Nothing,
}

/// Exactly the modifier `ctrl` is held.
pub open spec fn only_ctrl(m: KeyMods) -> bool {
    m.ctrl && !m.shift && !m.other
}

/// Exactly the modifier `shift` is held.
pub open spec fn only_shift(m: KeyMods) -> bool {
    m.shift && !m.ctrl && !m.other
}

/// The action of a character key in the tree view: `t` / `T` step the color
/// theme forward / back and `m` opens the theme picker.
pub open spec fn char_action_of(c: char, m: KeyMods) -> KeyAction {
    if c == 'q' || (c == 'c' && only_ctrl(m)) {
        KeyAction::Quit
    } else if c == '?' {
        KeyAction::ShowHelp
    } else if c == '/' {
        KeyAction::StartFilter
    } else if c == 'j' {
        KeyAction::Move(1i32)
    } else if c == 'k' {
        KeyAction::Move(-1i32)
    } else if c == 'g' {
        KeyAction::Top
    } else if c == 'G' {
        KeyAction::Bottom
    } else if c == 'h' {
        KeyAction::Collapse
    } else if c == 'l' {
        KeyAction::Expand
    } else if c == ' ' {
        KeyAction::TogglePause
    } else if c == 'n' {
        KeyAction::PlayRelative(1i32)
    } else if c == 'p' {
        KeyAction::PlayRelative(-1i32)
    } else if c == 'u' {
        KeyAction::PreviousTrack
    } else if c == 'r' {
        KeyAction::CycleLoop
    } else if c == 's' {
        KeyAction::ToggleShuffle
    } else if c == 'b' {
        KeyAction::ToggleGapless
    } else if c == 'a' {
        KeyAction::QueueAppend
    } else if c == 'A' {
        KeyAction::QueuePlayNext
    } else if c == 'Q' {
        KeyAction::ToggleQueue
    } else if c == 'w' {
        KeyAction::WriteQueue
    } else if c == 'c' {
        KeyAction::JumpToNowPlaying
    } else if c == 'y' {
        KeyAction::CopySelection
    } else if c == 'Y' {
        KeyAction::CopyNowPlaying
    } else if c == '.' {
        KeyAction::SeekRel(5i32)
    } else if c == ',' {
        KeyAction::SeekRel(-5i32)
    } else if c == '+' || c == '=' {
        KeyAction::VolRel(5i32)
    } else if c == '-' {
        KeyAction::VolRel(-5i32)
    } else if c == 'v' {
        KeyAction::CycleScope(1i32)
    } else if c == 'V' {
        KeyAction::CycleScope(-1i32)
    } else if c == 't' {
        KeyAction::CycleTheme(1i32)
    } else if c == 'T' {
        KeyAction::CycleTheme(-1i32)
    } else if c == 'm' {
        KeyAction::OpenThemePicker
    } else if c == 'i' {
        KeyAction::ToggleCoverArt
    } else {
        KeyAction::Nothing
    }
}

/// The action of a key in the tree view: the cursor keys mirror
/// `j`/`k`/`g`/`G`/`h`/`l`, shift with left / right scrubs the playhead by a
/// second, and Enter opens or plays the selection.
pub open spec fn tree_action_of(k: Key, m: KeyMods) -> KeyAction {
    match k {
        Key::Char(c) => char_action_of(c, m),
        Key::Down => KeyAction::Move(1i32),
        Key::Up => KeyAction::Move(-1i32),
        Key::Home => KeyAction::Top,
        Key::End => KeyAction::Bottom,
        Key::Left => if only_shift(m) { KeyAction::SeekRel(-1i32) } else { KeyAction::Collapse },
        Key::Right => if only_shift(m) { KeyAction::SeekRel(1i32) } else { KeyAction::Expand },
        Key::Enter => KeyAction::Enter,
        _ => KeyAction::Nothing,
    }
}

/// The key table. An open prompt or modal takes the key first, in this
/// order: the fuzzy-find prompt, the help (closed by `q` or Esc, every other
/// key swallowed), the theme picker, the queue manager. Then Esc clears an
/// applied filter; any other key acts on the tree view.
pub open spec fn key_action_of(md: KeyModes, k: Key, m: KeyMods) -> KeyAction {
    if md.filtering {
        KeyAction::FilterKey
    } else if md.show_help {
        if k == Key::Char('q') || k == Key::Esc {
            KeyAction::CloseHelp
        } else {
            KeyAction::Nothing
        }
    } else if md.show_theme {
        KeyAction::ThemeKey
    } else if md.show_queue {
        KeyAction::QueueKey
    } else if k == Key::Esc && md.filter_active {
        KeyAction::ClearFilter
    } else {
        tree_action_of(k, m)
    }
}

fn char_action(c: char, m: KeyMods) -> (r: KeyAction)
    ensures
        r == char_action_of(c, m),
{
    if c == 'q' || (c == 'c' && m.ctrl && !m.shift && !m.other) {
        KeyAction::Quit
    } else if c == '?' {
        KeyAction::ShowHelp
    } else if c == '/' {
        KeyAction::StartFilter
    } else if c == 'j' {
        KeyAction::Move(1i32)
    } else if c == 'k' {
        KeyAction::Move(-1i32)
    } else if c == 'g' {
        KeyAction::Top
    } else if c == 'G' {
        KeyAction::Bottom
    } else if c == 'h' {
        KeyAction::Collapse
    } else if c == 'l' {
        KeyAction::Expand
    } else if c == ' ' {
        KeyAction::TogglePause
    } else if c == 'n' {
        KeyAction::PlayRelative(1i32)
    } else if c == 'p' {
        KeyAction::PlayRelative(-1i32)
    } else if c == 'u' {
        KeyAction::PreviousTrack
    } else if c == 'r' {
        KeyAction::CycleLoop
    } else if c == 's' {
        KeyAction::ToggleShuffle
    } else if c == 'b' {
        KeyAction::ToggleGapless
    } else if c == 'a' {
        KeyAction::QueueAppend
    } else if c == 'A' {
        KeyAction::QueuePlayNext
    } else if c == 'Q' {
        KeyAction::ToggleQueue
    } else if c == 'w' {
        KeyAction::WriteQueue
    } else if c == 'c' {
        KeyAction::JumpToNowPlaying
    } else if c == 'y' {
        KeyAction::CopySelection
    } else if c == 'Y' {
        KeyAction::CopyNowPlaying
    } else if c == '.' {
        KeyAction::SeekRel(5i32)
    } else if c == ',' {
        KeyAction::SeekRel(-5i32)
    } else if c == '+' || c == '=' {
        KeyAction::VolRel(5i32)
    } else if c == '-' {
        KeyAction::VolRel(-5i32)
    } else if c == 'v' {
        KeyAction::CycleScope(1i32)
    } else if c == 'V' {
        KeyAction::CycleScope(-1i32)
    } else if c == 't' {
        KeyAction::CycleTheme(1i32)
    } else if c == 'T' {
        KeyAction::CycleTheme(-1i32)
    } else if c == 'm' {
        KeyAction::OpenThemePicker
    } else if c == 'i' {
        KeyAction::ToggleCoverArt
    } else {
        KeyAction::Nothing
    }
}

/// The action a key press asks for (see `key_action_of`).
pub fn key_action(md: KeyModes, k: Key, m: KeyMods) -> (r: KeyAction)
    ensures
        r == key_action_of(md, k, m),
{
    if md.filtering {
        KeyAction::FilterKey
    } else if md.show_help {
        match k {
            Key::Char(c) => if c == 'q' { KeyAction::CloseHelp } else { KeyAction::Nothing },
            Key::Esc => KeyAction::CloseHelp,
            _ => KeyAction::Nothing,
        }
    } else if md.show_theme {
        KeyAction::ThemeKey
    } else if md.show_queue {
        KeyAction::QueueKey
    } else {
        let only_shift = m.shift && !m.ctrl && !m.other;
        match k {
            Key::Esc => if md.filter_active { KeyAction::ClearFilter } else { KeyAction::Nothing },
            Key::Char(c) => char_action(c, m),
            Key::Down => KeyAction::Move(1i32),
            Key::Up => KeyAction::Move(-1i32),
            Key::Home => KeyAction::Top,
            Key::End => KeyAction::Bottom,
            Key::Left => if only_shift { KeyAction::SeekRel(-1i32) } else { KeyAction::Collapse },
            Key::Right => if only_shift { KeyAction::SeekRel(1i32) } else { KeyAction::Expand },
            Key::Enter => KeyAction::Enter,
            _ => KeyAction::Nothing,
        }
    }
}

/// What a key asks for in the queue manager.
#[derive(Clone, Copy, Debug, PartialEq, Eq, Structural)]
pub enum QueueAction {
    /// Move the queue cursor by this many rows.
    Move(i32),
    /// Move the selected entry by this many places.
    Reorder(i32),
    Remove,
    Clear,
    Play,
    Save,
    Close,
    Nothing,
}

/// The queue manager's keys: `j`/`k` (or the arrows) move, `J`/`K` reorder,
/// `x` deletes, `X` clears, Enter plays, `w` saves, Esc closes.
pub open spec fn queue_action_of(k: Key) -> QueueAction {
    match k {
        Key::Char(c) => if c == 'j' {
            QueueAction::Move(1i32)
        } else if c == 'k' {
            QueueAction::Move(-1i32)
        } else if c == 'J' {
            QueueAction::Reorder(1i32)
        } else if c == 'K' {
            QueueAction::Reorder(-1i32)
        } else if c == 'x' {
            QueueAction::Remove
        } else if c == 'X' {
            QueueAction::Clear
        } else if c == 'w' {
            QueueAction::Save
        } else {
            QueueAction::Nothing
        },
        Key::Down => QueueAction::Move(1i32),
        Key::Up => QueueAction::Move(-1i32),
        Key::Enter => QueueAction::Play,
        Key::Esc => QueueAction::Close,
        _ => QueueAction::Nothing,
    }
}

/// The action a key asks for in the queue manager (see `queue_action_of`).
pub fn queue_action(k: Key) -> (r: QueueAction)
    ensures
        r == queue_action_of(k),
{
    match k {
        Key::Char(c) => if c == 'j' {
            QueueAction::Move(1i32)
        } else if c == 'k' {
            QueueAction::Move(-1i32)
        } else if c == 'J' {
            QueueAction::Reorder(1i32)
        } else if c == 'K' {
            QueueAction::Reorder(-1i32)
        } else if c == 'x' {
            QueueAction::Remove
        } else if c == 'X' {
            QueueAction::Clear
        } else if c == 'w' {
            QueueAction::Save
        } else {
            QueueAction::Nothing
        },
        Key::Down => QueueAction::Move(1i32),
        Key::Up => QueueAction::Move(-1i32),
        Key::Enter => QueueAction::Play,
        Key::Esc => QueueAction::Close,
        _ => QueueAction::Nothing,
    }
}

/// No prompt or modal is open: keys act on the tree view.
pub open spec fn tree_view(md: KeyModes) -> bool {
    !md.filtering && !md.show_help && !md.show_theme && !md.show_queue
}

/// The key table of the tree view, whatever modifiers are held: `j`/`k` and
/// the arrows move the cursor, `g`/`Home` go to the top and `G`/`End` to the
/// bottom, `l`/`h` expand and collapse, Enter opens, space pauses, `n`/`p`
/// step tracks, `r` cycles the loop mode, `,`/`.` seek, `-`/`+` set the
/// volume, `v`/`V` and `t`/`T` step the scope preset and the theme, `/`
/// finds, `?` helps and `q` quits.
pub proof fn law_tree_keys(md: KeyModes, m: KeyMods)
    requires
        tree_view(md),
    ensures
        key_action_of(md, Key::Char('j'), m) == KeyAction::Move(1i32),
        key_action_of(md, Key::Down, m) == KeyAction::Move(1i32),
        key_action_of(md, Key::Char('k'), m) == KeyAction::Move(-1i32),
        key_action_of(md, Key::Up, m) == KeyAction::Move(-1i32),
        key_action_of(md, Key::Char('g'), m) == KeyAction::Top,
        key_action_of(md, Key::Home, m) == KeyAction::Top,
        key_action_of(md, Key::Char('G'), m) == KeyAction::Bottom,
        key_action_of(md, Key::End, m) == KeyAction::Bottom,
        key_action_of(md, Key::Char('l'), m) == KeyAction::Expand,
        key_action_of(md, Key::Char('h'), m) == KeyAction::Collapse,
        key_action_of(md, Key::Enter, m) == KeyAction::Enter,
        key_action_of(md, Key::Char(' '), m) == KeyAction::TogglePause,
        key_action_of(md, Key::Char('n'), m) == KeyAction::PlayRelative(1i32),
        key_action_of(md, Key::Char('p'), m) == KeyAction::PlayRelative(-1i32),
        key_action_of(md, Key::Char('r'), m) == KeyAction::CycleLoop,
        key_action_of(md, Key::Char(','), m) == KeyAction::SeekRel(-5i32),
        key_action_of(md, Key::Char('.'), m) == KeyAction::SeekRel(5i32),
        key_action_of(md, Key::Char('-'), m) == KeyAction::VolRel(-5i32),
        key_action_of(md, Key::Char('+'), m) == KeyAction::VolRel(5i32),
        key_action_of(md, Key::Char('='), m) == KeyAction::VolRel(5i32),
        key_action_of(md, Key::Char('v'), m) == KeyAction::CycleScope(1i32),
        key_action_of(md, Key::Char('V'), m) == KeyAction::CycleScope(-1i32),
        key_action_of(md, Key::Char('t'), m) == KeyAction::CycleTheme(1i32),
        key_action_of(md, Key::Char('T'), m) == KeyAction::CycleTheme(-1i32),
        key_action_of(md, Key::Char('/'), m) == KeyAction::StartFilter,
        key_action_of(md, Key::Char('?'), m) == KeyAction::ShowHelp,
        key_action_of(md, Key::Char('q'), m) == KeyAction::Quit,
{
}

/// The arrows mirror the letter keys unless shift alone is held, which makes
/// left / right scrub the playhead by a second; ctrl-c quits.
pub proof fn law_arrow_keys(md: KeyModes, m: KeyMods)
    requires
        tree_view(md),
    ensures
        key_action_of(md, Key::Left, m) == if m.shift && !m.ctrl && !m.other {
            KeyAction::SeekRel(-1i32)
        } else {
            KeyAction::Collapse
        },
        key_action_of(md, Key::Right, m) == if m.shift && !m.ctrl && !m.other {
            KeyAction::SeekRel(1i32)
        } else {
            KeyAction::Expand
        },
        m.ctrl && !m.shift && !m.other ==> key_action_of(md, Key::Char('c'), m) == KeyAction::Quit,
{
}

} // verus!
