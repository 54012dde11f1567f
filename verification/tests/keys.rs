use muse::keys::{key_action, queue_action, Key, KeyAction, KeyMods, KeyModes, QueueAction};

const NONE: KeyMods = KeyMods { ctrl: false, shift: false, other: false };
const CTRL: KeyMods = KeyMods { ctrl: true, shift: false, other: false };
const SHIFT: KeyMods = KeyMods { ctrl: false, shift: true, other: false };
const TREE: KeyModes = KeyModes { filtering: false, show_help: false, show_theme: false, show_queue: false, filter_active: false };

fn tree(k: Key) -> KeyAction {
    key_action(TREE, k, NONE)
}

#[test]
fn tree_keys_follow_the_table() {
    assert_eq!(tree(Key::Char('j')), KeyAction::Move(1));
    assert_eq!(tree(Key::Down), KeyAction::Move(1));
    assert_eq!(tree(Key::Char('k')), KeyAction::Move(-1));
    assert_eq!(tree(Key::Up), KeyAction::Move(-1));
    assert_eq!(tree(Key::Char('g')), KeyAction::Top);
    assert_eq!(tree(Key::End), KeyAction::Bottom);
    assert_eq!(tree(Key::Char('l')), KeyAction::Expand);
    assert_eq!(tree(Key::Left), KeyAction::Collapse);
    assert_eq!(tree(Key::Enter), KeyAction::Enter);
    assert_eq!(tree(Key::Char(' ')), KeyAction::TogglePause);
    assert_eq!(tree(Key::Char('n')), KeyAction::PlayRelative(1));
    assert_eq!(tree(Key::Char('p')), KeyAction::PlayRelative(-1));
    assert_eq!(tree(Key::Char('r')), KeyAction::CycleLoop);
    assert_eq!(tree(Key::Char(',')), KeyAction::SeekRel(-5));
    assert_eq!(tree(Key::Char('.')), KeyAction::SeekRel(5));
    assert_eq!(tree(Key::Char('=')), KeyAction::VolRel(5));
    assert_eq!(tree(Key::Char('-')), KeyAction::VolRel(-5));
    assert_eq!(tree(Key::Char('v')), KeyAction::CycleScope(1));
    assert_eq!(tree(Key::Char('V')), KeyAction::CycleScope(-1));
    assert_eq!(tree(Key::Char('t')), KeyAction::CycleTheme(1));
    assert_eq!(tree(Key::Char('T')), KeyAction::CycleTheme(-1));
    assert_eq!(tree(Key::Char('m')), KeyAction::OpenThemePicker);
    assert_eq!(tree(Key::Char('i')), KeyAction::ToggleCoverArt);
    assert_eq!(tree(Key::Char('/')), KeyAction::StartFilter);
    assert_eq!(tree(Key::Char('?')), KeyAction::ShowHelp);
    assert_eq!(tree(Key::Char('q')), KeyAction::Quit);
    assert_eq!(tree(Key::Char('y')), KeyAction::CopySelection);
    assert_eq!(tree(Key::Char('Y')), KeyAction::CopyNowPlaying);
    assert_eq!(tree(Key::Char('c')), KeyAction::JumpToNowPlaying);
    assert_eq!(tree(Key::Char('x')), KeyAction::Nothing);
    assert_eq!(tree(Key::Esc), KeyAction::Nothing);
    assert_eq!(tree(Key::Other), KeyAction::Nothing);
}

#[test]
fn modifiers_pick_quit_and_scrub() {
    assert_eq!(key_action(TREE, Key::Char('c'), CTRL), KeyAction::Quit);
    assert_eq!(key_action(TREE, Key::Left, SHIFT), KeyAction::SeekRel(-1));
    assert_eq!(key_action(TREE, Key::Right, SHIFT), KeyAction::SeekRel(1));
    let ctrl_shift = KeyMods { ctrl: true, shift: true, other: false };
    assert_eq!(key_action(TREE, Key::Right, ctrl_shift), KeyAction::Expand);
    assert_eq!(key_action(TREE, Key::Char('c'), ctrl_shift), KeyAction::JumpToNowPlaying);
}

#[test]
fn modes_take_keys_first() {
    let filtering = KeyModes { filtering: true, ..TREE };
    assert_eq!(key_action(filtering, Key::Char('q'), NONE), KeyAction::FilterKey);
    let help = KeyModes { show_help: true, ..TREE };
    assert_eq!(key_action(help, Key::Char('q'), NONE), KeyAction::CloseHelp);
    assert_eq!(key_action(help, Key::Esc, NONE), KeyAction::CloseHelp);
    assert_eq!(key_action(help, Key::Char('?'), NONE), KeyAction::Nothing);
    assert_eq!(key_action(help, Key::Char('j'), NONE), KeyAction::Nothing);
    let theme = KeyModes { show_theme: true, show_queue: true, ..TREE };
    assert_eq!(key_action(theme, Key::Char('j'), NONE), KeyAction::ThemeKey);
    let queue = KeyModes { show_queue: true, filter_active: true, ..TREE };
    assert_eq!(key_action(queue, Key::Esc, NONE), KeyAction::QueueKey);
    let filtered = KeyModes { filter_active: true, ..TREE };
    assert_eq!(key_action(filtered, Key::Esc, NONE), KeyAction::ClearFilter);
    assert_eq!(key_action(filtered, Key::Char('j'), NONE), KeyAction::Move(1));
}

#[test]
fn queue_manager_keys() {
    assert_eq!(queue_action(Key::Char('j')), QueueAction::Move(1));
    assert_eq!(queue_action(Key::Up), QueueAction::Move(-1));
    assert_eq!(queue_action(Key::Char('J')), QueueAction::Reorder(1));
    assert_eq!(queue_action(Key::Char('K')), QueueAction::Reorder(-1));
    assert_eq!(queue_action(Key::Char('x')), QueueAction::Remove);
    assert_eq!(queue_action(Key::Char('X')), QueueAction::Clear);
    assert_eq!(queue_action(Key::Enter), QueueAction::Play);
    assert_eq!(queue_action(Key::Char('w')), QueueAction::Save);
    assert_eq!(queue_action(Key::Esc), QueueAction::Close);
    assert_eq!(queue_action(Key::Char('d')), QueueAction::Nothing);
}
