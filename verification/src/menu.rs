//! The client's screens, and what clicks, keys and window events do to them.
//!
//! Each event is decided here from the current screen state and the event; the
//! returned command names the outside work (mouse capture, drawing, saving, loading)
//! that the window loop carries out.

use vstd::prelude::*;
use vstd::string::*;

use crate::client::{
    hotbar_slot_for_key, is_digit, is_settings_character_allowed, GameKey, SettingsField,
};

verus! {

/// The screen the client shows.
#[derive(Debug, Clone, Copy, PartialEq, Eq, Structural)]
pub enum AppScreen {
    MainMenu,
    WorldList,
    LoadingWorld,
    Settings,
    PauseMenu,
    InGame,
}

impl Default for AppScreen {
    fn default() -> (s: Self)
        ensures
            s == AppScreen::MainMenu,
    {
        AppScreen::MainMenu
    }
}

/// What a menu button does.
#[derive(Debug, Clone, Copy, PartialEq, Eq, Structural)]
pub enum MenuAction {
    Play,
    Settings,
    CreateWorld,
    Back,
    Resume,
    QuitToMenu,
    QuitGame,
    MouseSensitivity,
    ChunkViewDistance,
    Fov,
}

/// The work an event leaves for the window loop, besides the new screen state.
#[derive(Debug, Clone, Copy, PartialEq, Eq, Structural)]
pub enum MenuCommand {
    /// Nothing.
    Nothing,
    /// Redraw the menu.
    Refresh,
    /// Release the mouse and redraw the menu.
    ReleaseMouseAndRefresh,
    /// Refill the settings text boxes from the current settings, release the mouse and
    /// redraw the menu.
    OpenSettings,
    /// Apply (and save) the settings typed in, release the mouse and redraw the menu.
    ApplySettingsReleaseMouseAndRefresh,
    /// Apply (and save) the settings typed in and redraw the menu.
    ApplySettingsAndRefresh,
    /// Apply (and save) the settings typed in and start loading the saved world.
    ApplySettingsAndStartWorld,
    /// Go back into the loaded world: reset the input, capture the mouse, draw the game.
    ResumeGame,
    /// Save the world if it changed, drop it and show the main menu.
    QuitToMainMenu,
    /// Save the settings and the world, then exit.
    SaveAndExit,
    /// Apply (and save) the settings typed in, save the world, then exit.
    ApplySettingsSaveAndExit,
    /// Exit.
    Exit,
}

/// Which screen is shown, which settings text box takes typing, and where the
/// settings screen goes back to.
#[derive(Debug, Clone, Copy, PartialEq, Eq, Structural)]
pub struct MenuState {
    pub screen: AppScreen,
    pub active_settings_field: Option<SettingsField>,
    pub settings_back_screen: AppScreen,
}

/// The state the client starts in: the main menu, no text box active.
pub open spec fn start_state() -> MenuState {
    MenuState {
        screen: AppScreen::MainMenu,
        active_settings_field: None,
        settings_back_screen: AppScreen::MainMenu,
    }
}

impl MenuState {
    /// The state the client starts in.
    pub fn new() -> (s: Self)
        ensures
            s == start_state(),
    {
        MenuState {
            screen: AppScreen::MainMenu,
            active_settings_field: None,
            settings_back_screen: AppScreen::MainMenu,
        }
    }
}

/// Leaving the menus for the loaded world, or for the main menu when no world is loaded.
pub open spec fn resumed(s: MenuState, world_loaded: bool) -> (MenuState, MenuCommand) {
    if world_loaded {
        (MenuState { screen: AppScreen::InGame, active_settings_field: None, ..s }, MenuCommand::ResumeGame)
    } else {
        quit_to_menu(s)
    }
}

/// Dropping the world and showing the main menu.
pub open spec fn quit_to_menu(s: MenuState) -> (MenuState, MenuCommand) {
    (
        MenuState {
            screen: AppScreen::MainMenu,
            active_settings_field: None,
            settings_back_screen: AppScreen::MainMenu,
        },
        MenuCommand::QuitToMainMenu,
    )
}

/// The new state and command after a left click on the menu, `action` being the
/// button under the mouse, if any.
pub open spec fn after_click(s: MenuState, action: Option<MenuAction>, world_loaded: bool) -> (
    MenuState,
    MenuCommand,
) {
    match action {
        None => if s.screen == AppScreen::Settings {
            (MenuState { active_settings_field: None, ..s }, MenuCommand::Refresh)
        } else {
            (s, MenuCommand::Nothing)
        },
        Some(MenuAction::Play) => (
            MenuState { screen: AppScreen::WorldList, active_settings_field: None, ..s },
            MenuCommand::ReleaseMouseAndRefresh,
        ),
        Some(MenuAction::Settings) => (
            MenuState {
                screen: AppScreen::Settings,
                active_settings_field: Some(SettingsField::MouseSensitivity),
                settings_back_screen: if s.screen == AppScreen::PauseMenu {
                    AppScreen::PauseMenu
                } else {
                    AppScreen::MainMenu
                },
            },
            MenuCommand::OpenSettings,
        ),
        Some(MenuAction::CreateWorld) => (
            MenuState { screen: AppScreen::LoadingWorld, ..s },
            MenuCommand::ApplySettingsAndStartWorld,
        ),
        Some(MenuAction::Back) => if s.screen == AppScreen::Settings {
            (
                MenuState { screen: s.settings_back_screen, active_settings_field: None, ..s },
                MenuCommand::ApplySettingsReleaseMouseAndRefresh,
            )
        } else {
            (
                MenuState { screen: AppScreen::MainMenu, active_settings_field: None, ..s },
                MenuCommand::ReleaseMouseAndRefresh,
            )
        },
        Some(MenuAction::Resume) => resumed(s, world_loaded),
        Some(MenuAction::QuitToMenu) => quit_to_menu(s),
        Some(MenuAction::QuitGame) => (s, MenuCommand::SaveAndExit),
        Some(MenuAction::MouseSensitivity) => (
            MenuState { active_settings_field: Some(SettingsField::MouseSensitivity), ..s },
            MenuCommand::Refresh,
        ),
        Some(MenuAction::ChunkViewDistance) => (
            MenuState { active_settings_field: Some(SettingsField::ChunkViewDistance), ..s },
            MenuCommand::Refresh,
        ),
        Some(MenuAction::Fov) => (
            MenuState { active_settings_field: Some(SettingsField::Fov), ..s },
            MenuCommand::Refresh,
        ),
    }
}

/// A left click on the menu; `action` is the button under the mouse, if any, and
/// `world_loaded` whether a world is loaded to resume.
pub fn menu_click(state: MenuState, action: Option<MenuAction>, world_loaded: bool) -> (r: (
    MenuState,
    MenuCommand,
))
    ensures
        r == after_click(state, action, world_loaded),
{
    let cleared = MenuState { active_settings_field: None, ..state };
    match action {
        None => {
            if state.screen == AppScreen::Settings {
                (cleared, MenuCommand::Refresh)
            } else {
                (state, MenuCommand::Nothing)
            }
        },
        Some(MenuAction::Play) => (
            MenuState { screen: AppScreen::WorldList, ..cleared },
            MenuCommand::ReleaseMouseAndRefresh,
        ),
        Some(MenuAction::Settings) => {
            let back = if state.screen == AppScreen::PauseMenu {
                AppScreen::PauseMenu
            } else {
                AppScreen::MainMenu
            };
            (
                MenuState {
                    screen: AppScreen::Settings,
                    active_settings_field: Some(SettingsField::MouseSensitivity),
                    settings_back_screen: back,
                },
                MenuCommand::OpenSettings,
            )
        },
        Some(MenuAction::CreateWorld) => (
            MenuState { screen: AppScreen::LoadingWorld, ..state },
            MenuCommand::ApplySettingsAndStartWorld,
        ),
        Some(MenuAction::Back) => {
            if state.screen == AppScreen::Settings {
                (
                    MenuState { screen: state.settings_back_screen, ..cleared },
                    MenuCommand::ApplySettingsReleaseMouseAndRefresh,
                )
            } else {
                (
                    MenuState { screen: AppScreen::MainMenu, ..cleared },
                    MenuCommand::ReleaseMouseAndRefresh,
                )
            }
        },
        Some(MenuAction::Resume) => resume(state, world_loaded),
        Some(MenuAction::QuitToMenu) => quit(),
        Some(MenuAction::QuitGame) => (state, MenuCommand::SaveAndExit),
        Some(MenuAction::MouseSensitivity) => (
            MenuState { active_settings_field: Some(SettingsField::MouseSensitivity), ..state },
            MenuCommand::Refresh,
        ),
        Some(MenuAction::ChunkViewDistance) => (
            MenuState { active_settings_field: Some(SettingsField::ChunkViewDistance), ..state },
            MenuCommand::Refresh,
        ),
        Some(MenuAction::Fov) => (
            MenuState { active_settings_field: Some(SettingsField::Fov), ..state },
            MenuCommand::Refresh,
        ),
    }
}

fn resume(state: MenuState, world_loaded: bool) -> (r: (MenuState, MenuCommand))
    ensures
        r == resumed(state, world_loaded),
{
    if world_loaded {
        (
            MenuState { screen: AppScreen::InGame, active_settings_field: None, ..state },
            MenuCommand::ResumeGame,
        )
    } else {
        quit()
    }
}

fn quit() -> (r: (MenuState, MenuCommand))
    ensures
        forall|s: MenuState| r == quit_to_menu(s),
{
    (
        MenuState {
            screen: AppScreen::MainMenu,
            active_settings_field: None,
            settings_back_screen: AppScreen::MainMenu,
        },
        MenuCommand::QuitToMainMenu,
    )
}

/// The state after Escape opens the pause menu during play.
pub fn open_pause_menu(state: MenuState) -> (s: MenuState)
    ensures
        s == (MenuState { screen: AppScreen::PauseMenu, active_settings_field: None, ..state }),
{
    MenuState { screen: AppScreen::PauseMenu, active_settings_field: None, ..state }
}

// ---------------------------------------------------------------------------
// Settings text boxes
// ---------------------------------------------------------------------------

/// The text box Tab moves to: mouse sensitivity, then chunk view distance, then field
/// of view, and round again.
pub open spec fn next_field(f: Option<SettingsField>) -> SettingsField {
    match f {
        Some(SettingsField::MouseSensitivity) => SettingsField::ChunkViewDistance,
        Some(SettingsField::ChunkViewDistance) => SettingsField::Fov,
        _ => SettingsField::MouseSensitivity,
    }
}

/// The text box Tab moves to from `field`.
pub fn next_settings_field(field: Option<SettingsField>) -> (f: SettingsField)
    ensures
        f == next_field(field),
{
    match field {
        Some(SettingsField::MouseSensitivity) => SettingsField::ChunkViewDistance,
        Some(SettingsField::ChunkViewDistance) => SettingsField::Fov,
        _ => SettingsField::MouseSensitivity,
    }
}

/// The text of the three settings text boxes.
#[derive(Debug)]
pub struct SettingsInputs {
    pub mouse_sensitivity: String,
    pub chunk_view_distance: String,
    pub fov_degrees: String,
}

/// The text of the three settings text boxes, as character sequences.
pub struct SettingsInputsView {
    pub mouse_sensitivity: Seq<char>,
    pub chunk_view_distance: Seq<char>,
    pub fov_degrees: Seq<char>,
}

impl View for SettingsInputs {
    type V = SettingsInputsView;

    open spec fn view(&self) -> SettingsInputsView {
        SettingsInputsView {
            mouse_sensitivity: self.mouse_sensitivity@,
            chunk_view_distance: self.chunk_view_distance@,
            fov_degrees: self.fov_degrees@,
        }
    }
}

impl SettingsInputsView {
    /// The text of the box of `field`.
    pub open spec fn text(self, field: SettingsField) -> Seq<char> {
        match field {
            SettingsField::MouseSensitivity => self.mouse_sensitivity,
            SettingsField::ChunkViewDistance => self.chunk_view_distance,
            SettingsField::Fov => self.fov_degrees,
        }
    }

    /// The boxes with the text of `field` replaced by `t`.
    pub open spec fn with_text(self, field: SettingsField, t: Seq<char>) -> SettingsInputsView {
        match field {
            SettingsField::MouseSensitivity => SettingsInputsView { mouse_sensitivity: t, ..self },
            SettingsField::ChunkViewDistance => SettingsInputsView { chunk_view_distance: t, ..self },
            SettingsField::Fov => SettingsInputsView { fov_degrees: t, ..self },
        }
    }
}

impl SettingsInputs {
    /// Text boxes holding the given texts.
    pub fn new(mouse_sensitivity: String, chunk_view_distance: String, fov_degrees: String) -> (s:
        Self)
        ensures
            s@ == (SettingsInputsView {
                mouse_sensitivity: mouse_sensitivity@,
                chunk_view_distance: chunk_view_distance@,
                fov_degrees: fov_degrees@,
            }),
    {
        SettingsInputs { mouse_sensitivity, chunk_view_distance, fov_degrees }
    }
}

/// Whether typing `c` into the box of `field` holding `current` adds it: digits, and
/// one decimal point in the boxes that take one.
pub open spec fn accepts(field: SettingsField, current: Seq<char>, c: char) -> bool {
    &&& (is_digit(c) || (c == '.' && field != SettingsField::ChunkViewDistance))
    &&& !(c == '.' && current.contains('.'))
}

/// The text of the box of `field` after typing `text` into it, character by character,
/// starting from `current`.
pub open spec fn typed(field: SettingsField, current: Seq<char>, text: Seq<char>) -> Seq<char>
    decreases text.len(),
{
    if text.len() == 0 {
        current
    } else {
        let before = typed(field, current, text.drop_last());
        if accepts(field, before, text.last()) {
            before.push(text.last())
        } else {
            before
        }
    }
}

/// Typing only ever appends: the text before typing is a prefix of the text after.
pub proof fn lemma_typed_extends(field: SettingsField, current: Seq<char>, text: Seq<char>)
    ensures
        typed(field, current, text).len() >= current.len(),
        typed(field, current, text).subrange(0, current.len() as int) == current,
    decreases text.len(),
{
    if text.len() > 0 {
        lemma_typed_extends(field, current, text.drop_last());
        let before = typed(field, current, text.drop_last());
        assert(before.push(text.last()).subrange(0, current.len() as int) =~= before.subrange(
            0,
            current.len() as int,
        ));
    }
}

/// `String::push`: appends `c` to the end of `s`.
#[verifier::external_body]
fn push_char(s: &mut String, c: char)
    ensures
        final(s)@ == old(s)@.push(c),
{
    s.push(c);
}

/// `String::pop`: removes the last character of `s` and returns it; `None`, and `s`
/// unchanged, when `s` is empty.
#[verifier::external_body]
fn pop_char(s: &mut String) -> (r: Option<char>)
    ensures
        old(s)@.len() == 0 ==> r is None && final(s)@ == old(s)@,
        old(s)@.len() > 0 ==> r == Some(old(s)@.last()) && final(s)@ == old(s)@.drop_last(),
{
    s.pop()
}

/// Whether `s` holds a decimal point.
fn has_point(s: &String) -> (b: bool)
    ensures
        b == s@.contains('.'),
{
    let t = s.as_str();
    let n = t.unicode_len();
    let mut i: usize = 0;
    while i < n
        invariant
            t@ == s@,
            n == s@.len(),
            0 <= i <= n,
            forall|j: int| 0 <= j < i ==> s@[j] != '.',
        decreases n - i,
    {
        if t.get_char(i) == '.' {
            return true;
        }
        i = i + 1;
    }
    false
}

/// Types `text` into one box; returns whether any character was added.
fn type_into(target: &mut String, field: SettingsField, text: &str) -> (accepted: bool)
    ensures
        final(target)@ == typed(field, old(target)@, text@),
        accepted == (final(target)@.len() > old(target)@.len()),
{
    let n = text.unicode_len();
    let mut accepted = false;
    let mut i: usize = 0;
    while i < n
        invariant
            n == text@.len(),
            0 <= i <= n,
            target@ == typed(field, old(target)@, text@.take(i as int)),
            target@.len() >= old(target)@.len(),
            accepted == (target@.len() > old(target)@.len()),
        decreases n - i,
    {
        let c = text.get_char(i);
        proof {
            assert(text@.take(i + 1).drop_last() =~= text@.take(i as int));
            assert(text@.take(i + 1).last() == c);
        }
        if is_settings_character_allowed(field, c) {
            if !(c == '.' && has_point(target)) {
                push_char(target, c);
                accepted = true;
            }
        }
        i = i + 1;
    }
    proof {
        assert(text@.take(n as int) =~= text@);
    }
    accepted
}

/// Types `text` into the active box; returns whether any character was added. With no
/// active box nothing changes.
pub fn push_settings_text(inputs: &mut SettingsInputs, field: Option<SettingsField>, text: &str) -> (accepted: bool)
    ensures
        field is None ==> !accepted && final(inputs)@ == old(inputs)@,
        field matches Some(f) ==> {
            &&& final(inputs)@ == old(inputs)@.with_text(f, typed(f, old(inputs)@.text(f), text@))
            &&& accepted == (typed(f, old(inputs)@.text(f), text@).len() > old(inputs)@.text(f).len())
        },
{
    match field {
        None => false,
        Some(SettingsField::MouseSensitivity) => type_into(
            &mut inputs.mouse_sensitivity,
            SettingsField::MouseSensitivity,
            text,
        ),
        Some(SettingsField::ChunkViewDistance) => type_into(
            &mut inputs.chunk_view_distance,
            SettingsField::ChunkViewDistance,
            text,
        ),
        Some(SettingsField::Fov) => type_into(&mut inputs.fov_degrees, SettingsField::Fov, text),
    }
}

/// A text with its last character removed; empty stays empty.
pub open spec fn erased(t: Seq<char>) -> Seq<char> {
    if t.len() == 0 {
        t
    } else {
        t.drop_last()
    }
}

/// Backspace: removes the last character of the active box.
pub fn settings_backspace(inputs: &mut SettingsInputs, field: Option<SettingsField>)
    ensures
        field is None ==> final(inputs)@ == old(inputs)@,
        field matches Some(f) ==> final(inputs)@ == old(inputs)@.with_text(
            f,
            erased(old(inputs)@.text(f)),
        ),
{
    match field {
        None => {},
        Some(SettingsField::MouseSensitivity) => {
            pop_char(&mut inputs.mouse_sensitivity);
        },
        Some(SettingsField::ChunkViewDistance) => {
            pop_char(&mut inputs.chunk_view_distance);
        },
        Some(SettingsField::Fov) => {
            pop_char(&mut inputs.fov_degrees);
        },
    }
}

// ---------------------------------------------------------------------------
// Keys on the menus
// ---------------------------------------------------------------------------

/// What Escape does on the menus.
pub open spec fn after_escape(s: MenuState, world_loaded: bool) -> (MenuState, MenuCommand) {
    match s.screen {
        AppScreen::MainMenu | AppScreen::LoadingWorld => (s, MenuCommand::Nothing),
        AppScreen::PauseMenu => resumed(s, world_loaded),
        AppScreen::Settings => (
            MenuState { screen: s.settings_back_screen, active_settings_field: None, ..s },
            MenuCommand::ApplySettingsAndRefresh,
        ),
        AppScreen::WorldList => (
            MenuState { screen: AppScreen::MainMenu, active_settings_field: None, ..s },
            MenuCommand::Refresh,
        ),
        AppScreen::InGame => (s, MenuCommand::Exit),
    }
}

/// The new state, text boxes and command after a key event on the menus: `pressed`
/// tells a press from a release, and `text` is the text the key typed, if any.
pub open spec fn after_menu_key(
    s: MenuState,
    inputs: SettingsInputsView,
    key: GameKey,
    pressed: bool,
    text: Option<Seq<char>>,
    world_loaded: bool,
) -> (MenuState, SettingsInputsView, MenuCommand) {
    let settings_key = s.screen == AppScreen::Settings && pressed;
    let field = s.active_settings_field;
    if settings_key && key == GameKey::Tab {
        (
            MenuState { active_settings_field: Some(next_field(field)), ..s },
            inputs,
            MenuCommand::Refresh,
        )
    } else if settings_key && key == GameKey::Backspace {
        (
            s,
            match field {
                Some(f) => inputs.with_text(f, erased(inputs.text(f))),
                None => inputs,
            },
            MenuCommand::Refresh,
        )
    } else if settings_key && key == GameKey::Enter {
        (s, inputs, MenuCommand::ApplySettingsAndRefresh)
    } else if settings_key && text is Some && field is Some && typed(
        field->0,
        inputs.text(field->0),
        text->0,
    ).len() > inputs.text(field->0).len() {
        (
            s,
            inputs.with_text(field->0, typed(field->0, inputs.text(field->0), text->0)),
            MenuCommand::Refresh,
        )
    } else if pressed && key == GameKey::Escape {
        let (t, c) = after_escape(s, world_loaded);
        (t, inputs, c)
    } else {
        (s, inputs, MenuCommand::Nothing)
    }
}

/// A key event on the menus; `world_loaded` tells whether Escape on the pause menu
/// has a world to resume.
pub fn menu_key_event(
    state: MenuState,
    inputs: &mut SettingsInputs,
    key: GameKey,
    pressed: bool,
    text: Option<&str>,
    world_loaded: bool,
) -> (r: (MenuState, MenuCommand))
    ensures
        ({
            let e = after_menu_key(
                state,
                old(inputs)@,
                key,
                pressed,
                match text {
                    Some(t) => Some(t@),
                    None => None,
                },
                world_loaded,
            );
            r == (e.0, e.2) && final(inputs)@ == e.1
        }),
{
    let field = state.active_settings_field;
    if state.screen == AppScreen::Settings && pressed {
        match key {
            GameKey::Tab => {
                let next = next_settings_field(field);
                return (
                    MenuState { active_settings_field: Some(next), ..state },
                    MenuCommand::Refresh,
                );
            },
            GameKey::Backspace => {
                settings_backspace(inputs, field);
                return (state, MenuCommand::Refresh);
            },
            GameKey::Enter => {
                return (state, MenuCommand::ApplySettingsAndRefresh);
            },
            _ => {},
        }
        if let Some(t) = text {
            if push_settings_text(inputs, field, t) {
                return (state, MenuCommand::Refresh);
            }
            proof {
                if let Some(f) = field {
                    let cur = old(inputs)@.text(f);
                    lemma_typed_extends(f, cur, t@);
                    assert(typed(f, cur, t@) =~= cur);
                    assert(old(inputs)@.with_text(f, cur) == old(inputs)@);
                }
            }
        }
    }
    if !pressed || key != GameKey::Escape {
        return (state, MenuCommand::Nothing);
    }
    match state.screen {
        AppScreen::MainMenu | AppScreen::LoadingWorld => (state, MenuCommand::Nothing),
        AppScreen::PauseMenu => resume(state, world_loaded),
        AppScreen::Settings => (
            MenuState {
                screen: state.settings_back_screen,
                active_settings_field: None,
                ..state
            },
            MenuCommand::ApplySettingsAndRefresh,
        ),
        AppScreen::WorldList => (
            MenuState { screen: AppScreen::MainMenu, active_settings_field: None, ..state },
            MenuCommand::Refresh,
        ),
        AppScreen::InGame => (state, MenuCommand::Exit),
    }
}

// ---------------------------------------------------------------------------
// Window events
// ---------------------------------------------------------------------------

/// Where a key event goes.
#[derive(Debug, Clone, Copy, PartialEq, Eq, Structural)]
pub enum KeyRoute {
    /// Keys are ignored while the world loads.
    Ignore,
    /// Keys drive the menus (`menu_key_event`).
    Menu,
    /// Keys drive the game (`play_key_command`).
    Game,
}

/// Where a key event goes on `screen`.
pub fn key_route(screen: AppScreen) -> (r: KeyRoute)
    ensures
        r == (match screen {
            AppScreen::LoadingWorld => KeyRoute::Ignore,
            AppScreen::InGame => KeyRoute::Game,
            _ => KeyRoute::Menu,
        }),
{
    match screen {
        AppScreen::LoadingWorld => KeyRoute::Ignore,
        AppScreen::InGame => KeyRoute::Game,
        _ => KeyRoute::Menu,
    }
}

/// What a key does during play.
#[derive(Debug, Clone, Copy, PartialEq, Eq, Structural)]
pub enum PlayKeyCommand {
    /// Open the pause menu (see `open_pause_menu`).
    OpenPauseMenu,
    /// Switch free flight on or off.
    ToggleNoclip,
    /// Select a hotbar slot.
    SelectHotbarSlot(usize),
    /// Record the key in the held-keys state (`InputState::set_key`).
    SetKey,
}

/// What `key` does during play; `pressed` tells a press from a release. Escape opens
/// the pause menu and V toggles free flight when pressed, a pressed digit selects its
/// hotbar slot, and every other event is recorded as a held or released key.
pub fn play_key_command(key: GameKey, pressed: bool) -> (c: PlayKeyCommand)
    ensures
        c == (if pressed && key == GameKey::Escape {
            PlayKeyCommand::OpenPauseMenu
        } else if pressed && key == GameKey::KeyV {
            PlayKeyCommand::ToggleNoclip
        } else if pressed && hotbar_key_slot(key) is Some {
            PlayKeyCommand::SelectHotbarSlot(hotbar_key_slot(key)->0)
        } else {
            PlayKeyCommand::SetKey
        }),
{
    if pressed && key == GameKey::Escape {
        return PlayKeyCommand::OpenPauseMenu;
    }
    if pressed && key == GameKey::KeyV {
        return PlayKeyCommand::ToggleNoclip;
    }
    if pressed {
        if let Some(slot) = hotbar_slot_for_key(key) {
            return PlayKeyCommand::SelectHotbarSlot(slot);
        }
    }
    PlayKeyCommand::SetKey
}

/// The hotbar slot a digit key selects.
pub open spec fn hotbar_key_slot(key: GameKey) -> Option<usize> {
    match key {
        GameKey::Digit1 => Some(0usize),
        GameKey::Digit2 => Some(1usize),
        GameKey::Digit3 => Some(2usize),
        GameKey::Digit4 => Some(3usize),
        GameKey::Digit5 => Some(4usize),
        GameKey::Digit6 => Some(5usize),
        GameKey::Digit7 => Some(6usize),
        GameKey::Digit8 => Some(7usize),
        GameKey::Digit9 => Some(8usize),
        _ => None,
    }
}

/// A mouse button.
#[derive(Debug, Clone, Copy, PartialEq, Eq, Structural)]
pub enum PointerButton {
    Left,
    Right,
    Other,
}

/// What a mouse button event does.
#[derive(Debug, Clone, Copy, PartialEq, Eq, Structural)]
pub enum MouseCommand {
    /// Nothing.
    Ignore,
    /// A click on the menu (`menu_click`).
    MenuClick,
    /// During play: capture the mouse, start or stop breaking, reset the breaking
    /// progress, place the selected block.
    Play { capture_mouse: bool, breaking: Option<bool>, reset_breaking: bool, place_block: bool },
}

/// What a press or release of `button` does on `screen`. During play any press
/// captures the mouse; the left button holds breaking (a release resets it) and a
/// right press resets breaking and places the selected block. On the menus a left
/// press is a click; while the world loads nothing happens.
pub fn mouse_button_command(screen: AppScreen, button: PointerButton, pressed: bool) -> (c:
    MouseCommand)
    ensures
        c == (match screen {
            AppScreen::InGame => match button {
                PointerButton::Left => MouseCommand::Play {
                    capture_mouse: pressed,
                    breaking: Some(pressed),
                    reset_breaking: !pressed,
                    place_block: false,
                },
                PointerButton::Right => MouseCommand::Play {
                    capture_mouse: pressed,
                    breaking: None,
                    reset_breaking: pressed,
                    place_block: pressed,
                },
                PointerButton::Other => MouseCommand::Play {
                    capture_mouse: pressed,
                    breaking: None,
                    reset_breaking: false,
                    place_block: false,
                },
            },
            AppScreen::LoadingWorld => MouseCommand::Ignore,
            _ => if button == PointerButton::Left && pressed {
                MouseCommand::MenuClick
            } else {
                MouseCommand::Ignore
            },
        }),
{
    match screen {
        AppScreen::InGame => match button {
            PointerButton::Left => MouseCommand::Play {
                capture_mouse: pressed,
                breaking: Some(pressed),
                reset_breaking: !pressed,
                place_block: false,
            },
            PointerButton::Right => MouseCommand::Play {
                capture_mouse: pressed,
                breaking: None,
                reset_breaking: pressed,
                place_block: pressed,
            },
            PointerButton::Other => MouseCommand::Play {
                capture_mouse: pressed,
                breaking: None,
                reset_breaking: false,
                place_block: false,
            },
        },
        AppScreen::LoadingWorld => MouseCommand::Ignore,
        _ => {
            if button == PointerButton::Left && pressed {
                MouseCommand::MenuClick
            } else {
                MouseCommand::Ignore
            }
        },
    }
}

/// What a change of window focus does.
#[derive(Debug, Clone, Copy, PartialEq, Eq, Structural)]
pub enum FocusCommand {
    Nothing,
    CaptureMouse,
    StopBreakingAndReleaseMouse,
}

/// Regaining focus during play captures the mouse; losing focus stops breaking and
/// releases it.
pub fn focus_command(screen: AppScreen, focused: bool) -> (c: FocusCommand)
    ensures
        c == (if !focused {
            FocusCommand::StopBreakingAndReleaseMouse
        } else if screen == AppScreen::InGame {
            FocusCommand::CaptureMouse
        } else {
            FocusCommand::Nothing
        }),
{
    if !focused {
        FocusCommand::StopBreakingAndReleaseMouse
    } else if screen == AppScreen::InGame {
        FocusCommand::CaptureMouse
    } else {
        FocusCommand::Nothing
    }
}

/// Closing the window: the settings typed on the settings screen are applied (and
/// saved), elsewhere the settings are saved as they are; then the world is saved and
/// the client exits.
pub fn close_command(screen: AppScreen) -> (c: MenuCommand)
    ensures
        c == (if screen == AppScreen::Settings {
            MenuCommand::ApplySettingsSaveAndExit
        } else {
            MenuCommand::SaveAndExit
        }),
{
    if screen == AppScreen::Settings {
        MenuCommand::ApplySettingsSaveAndExit
    } else {
        MenuCommand::SaveAndExit
    }
}

/// The work of a frame.
#[derive(Debug, Clone, Copy, PartialEq, Eq, Structural)]
pub enum FrameWork {
    /// Move the player, break blocks, take in finished chunk jobs, stream and mesh.
    PlayFrame,
    /// Advance the world loading.
    LoadWorld,
    /// Draw the menu.
    MenuFrame,
}

/// The work of a frame on `screen`.
pub fn frame_work(screen: AppScreen) -> (w: FrameWork)
    ensures
        w == (match screen {
            AppScreen::InGame => FrameWork::PlayFrame,
            AppScreen::LoadingWorld => FrameWork::LoadWorld,
            _ => FrameWork::MenuFrame,
        }),
{
    match screen {
        AppScreen::InGame => FrameWork::PlayFrame,
        AppScreen::LoadingWorld => FrameWork::LoadWorld,
        _ => FrameWork::MenuFrame,
    }
}

// ---------------------------------------------------------------------------
// Laws
// ---------------------------------------------------------------------------

/// Opening the settings and leaving them again, by the Back button or by Escape,
/// returns to the pause menu when they were opened from it and to the main menu
/// otherwise, with no text box active.
pub proof fn lemma_settings_return(s: MenuState, inputs: SettingsInputsView, world_loaded: bool)
    ensures
        ({
            let opened = after_click(s, Some(MenuAction::Settings), world_loaded).0;
            let back = if s.screen == AppScreen::PauseMenu {
                AppScreen::PauseMenu
            } else {
                AppScreen::MainMenu
            };
            let by_button = after_click(opened, Some(MenuAction::Back), world_loaded).0;
            let by_escape = after_menu_key(
                opened,
                inputs,
                GameKey::Escape,
                true,
                None,
                world_loaded,
            ).0;
            &&& opened.screen == AppScreen::Settings
            &&& by_button.screen == back
            &&& by_button.active_settings_field is None
            &&& by_escape.screen == back
            &&& by_escape.active_settings_field is None
        }),
{
}

/// Tab visits the three text boxes in turn and comes back to the first after three
/// presses.
pub proof fn lemma_tab_cycles(f: SettingsField)
    ensures
        next_field(Some(f)) != f,
        next_field(Some(next_field(Some(f)))) != f,
        next_field(Some(next_field(Some(next_field(Some(f)))))) == f,
{
}

/// Backspace takes back a character that typing added.
pub proof fn lemma_backspace_undoes_typing(field: SettingsField, current: Seq<char>, c: char)
    requires
        accepts(field, current, c),
    ensures
        typed(field, current, seq![c]) == current.push(c),
        erased(typed(field, current, seq![c])) == current,
{
    assert(seq![c].drop_last() =~= Seq::<char>::empty());
    assert(typed(field, current, Seq::<char>::empty()) == current);
    assert(current.push(c).drop_last() =~= current);
}

/// The number of decimal points in `s`.
pub open spec fn point_count(s: Seq<char>) -> nat
    decreases s.len(),
{
    if s.len() == 0 {
        0
    } else {
        point_count(s.drop_last()) + if s.last() == '.' {
            1nat
        } else {
            0nat
        }
    }
}

proof fn lemma_no_point_count(s: Seq<char>)
    requires
        !s.contains('.'),
    ensures
        point_count(s) == 0,
    decreases s.len(),
{
    if s.len() > 0 {
        assert forall|i: int| 0 <= i < s.drop_last().len() implies s.drop_last()[i] != '.' by {
            assert(s.drop_last()[i] == s[i]);
        }
        lemma_no_point_count(s.drop_last());
        assert(s.last() == s[s.len() - 1]);
    }
}

/// Typing never puts a second decimal point into a text box, and none into the chunk
/// view distance box.
pub proof fn lemma_typed_points(field: SettingsField, current: Seq<char>, text: Seq<char>)
    ensures
        point_count(typed(field, current, text)) <= if point_count(current) > 1 {
            point_count(current)
        } else {
            1
        },
        field == SettingsField::ChunkViewDistance ==> point_count(typed(field, current, text))
            == point_count(current),
    decreases text.len(),
{
    if text.len() > 0 {
        lemma_typed_points(field, current, text.drop_last());
        let before = typed(field, current, text.drop_last());
        let c = text.last();
        if accepts(field, before, c) {
            assert(before.push(c).drop_last() =~= before);
            if c == '.' {
                lemma_no_point_count(before);
            }
        }
    }
}

} // verus!
