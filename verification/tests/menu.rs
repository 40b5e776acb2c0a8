use adventure_quest::client::{GameKey, SettingsField};
use adventure_quest::menu::{
    close_command, focus_command, frame_work, key_route, menu_click, menu_key_event,
    mouse_button_command, next_settings_field, open_pause_menu, play_key_command,
    push_settings_text, settings_backspace, AppScreen, FocusCommand, FrameWork, KeyRoute,
    MenuAction, MenuCommand, MenuState, MouseCommand, PlayKeyCommand, PointerButton,
    SettingsInputs,
};

fn inputs(mouse: &str, distance: &str, fov: &str) -> SettingsInputs {
    SettingsInputs::new(mouse.to_string(), distance.to_string(), fov.to_string())
}

fn state(screen: AppScreen) -> MenuState {
    MenuState { screen, ..MenuState::new() }
}

#[test]
fn client_starts_on_main_menu() {
    let s = MenuState::new();
    assert_eq!(s.screen, AppScreen::MainMenu);
    assert_eq!(s.active_settings_field, None);
    assert_eq!(s.settings_back_screen, AppScreen::MainMenu);
    assert_eq!(AppScreen::default(), AppScreen::MainMenu);
}

#[test]
fn play_opens_world_list_and_create_world_starts_loading() {
    let (s, c) = menu_click(MenuState::new(), Some(MenuAction::Play), false);
    assert_eq!(s.screen, AppScreen::WorldList);
    assert_eq!(c, MenuCommand::ReleaseMouseAndRefresh);

    let (s, c) = menu_click(s, Some(MenuAction::CreateWorld), false);
    assert_eq!(s.screen, AppScreen::LoadingWorld);
    assert_eq!(c, MenuCommand::ApplySettingsAndStartWorld);
}

#[test]
fn settings_opened_from_pause_menu_return_to_pause_menu() {
    let (opened, c) = menu_click(state(AppScreen::PauseMenu), Some(MenuAction::Settings), true);
    assert_eq!(opened.screen, AppScreen::Settings);
    assert_eq!(opened.settings_back_screen, AppScreen::PauseMenu);
    assert_eq!(opened.active_settings_field, Some(SettingsField::MouseSensitivity));
    assert_eq!(c, MenuCommand::OpenSettings);

    let (back, c) = menu_click(opened, Some(MenuAction::Back), true);
    assert_eq!(back.screen, AppScreen::PauseMenu);
    assert_eq!(back.active_settings_field, None);
    assert_eq!(c, MenuCommand::ApplySettingsReleaseMouseAndRefresh);

    let mut boxes = inputs("0.0025", "5", "70");
    let (escaped, c) = menu_key_event(opened, &mut boxes, GameKey::Escape, true, None, true);
    assert_eq!(escaped.screen, AppScreen::PauseMenu);
    assert_eq!(c, MenuCommand::ApplySettingsAndRefresh);
}

#[test]
fn settings_opened_from_main_menu_return_to_main_menu() {
    let (opened, _) = menu_click(MenuState::new(), Some(MenuAction::Settings), false);
    let (back, _) = menu_click(opened, Some(MenuAction::Back), false);
    assert_eq!(back.screen, AppScreen::MainMenu);
}

#[test]
fn back_from_world_list_goes_to_main_menu() {
    let (s, c) = menu_click(state(AppScreen::WorldList), Some(MenuAction::Back), false);
    assert_eq!(s.screen, AppScreen::MainMenu);
    assert_eq!(c, MenuCommand::ReleaseMouseAndRefresh);
}

#[test]
fn resume_without_a_world_quits_to_main_menu() {
    let paused = MenuState {
        screen: AppScreen::PauseMenu,
        active_settings_field: None,
        settings_back_screen: AppScreen::PauseMenu,
    };
    let (s, c) = menu_click(paused, Some(MenuAction::Resume), true);
    assert_eq!(s.screen, AppScreen::InGame);
    assert_eq!(c, MenuCommand::ResumeGame);

    let (s, c) = menu_click(paused, Some(MenuAction::Resume), false);
    assert_eq!(s.screen, AppScreen::MainMenu);
    assert_eq!(s.settings_back_screen, AppScreen::MainMenu);
    assert_eq!(c, MenuCommand::QuitToMainMenu);
}

#[test]
fn quit_buttons_save_before_leaving() {
    let (s, c) = menu_click(state(AppScreen::PauseMenu), Some(MenuAction::QuitToMenu), true);
    assert_eq!(s.screen, AppScreen::MainMenu);
    assert_eq!(c, MenuCommand::QuitToMainMenu);

    let (s, c) = menu_click(MenuState::new(), Some(MenuAction::QuitGame), false);
    assert_eq!(s, MenuState::new());
    assert_eq!(c, MenuCommand::SaveAndExit);
}

#[test]
fn clicking_outside_buttons_on_settings_deactivates_text_box() {
    let (opened, _) = menu_click(MenuState::new(), Some(MenuAction::Settings), false);
    let (s, c) = menu_click(opened, None, false);
    assert_eq!(s.active_settings_field, None);
    assert_eq!(s.screen, AppScreen::Settings);
    assert_eq!(c, MenuCommand::Refresh);

    let (s, c) = menu_click(MenuState::new(), None, false);
    assert_eq!(s, MenuState::new());
    assert_eq!(c, MenuCommand::Nothing);

    let (s, _) = menu_click(opened, Some(MenuAction::Fov), false);
    assert_eq!(s.active_settings_field, Some(SettingsField::Fov));
}

#[test]
fn tab_cycles_through_settings_fields() {
    assert_eq!(next_settings_field(None), SettingsField::MouseSensitivity);
    assert_eq!(
        next_settings_field(Some(SettingsField::MouseSensitivity)),
        SettingsField::ChunkViewDistance
    );
    assert_eq!(next_settings_field(Some(SettingsField::ChunkViewDistance)), SettingsField::Fov);
    assert_eq!(next_settings_field(Some(SettingsField::Fov)), SettingsField::MouseSensitivity);

    let (opened, _) = menu_click(MenuState::new(), Some(MenuAction::Settings), false);
    let mut boxes = inputs("1", "5", "70");
    let (s, c) = menu_key_event(opened, &mut boxes, GameKey::Tab, true, Some("\t"), false);
    assert_eq!(s.active_settings_field, Some(SettingsField::ChunkViewDistance));
    assert_eq!(c, MenuCommand::Refresh);
    assert_eq!(boxes.mouse_sensitivity, "1");
}

#[test]
fn typing_keeps_digits_and_one_decimal_point() {
    let mut boxes = inputs("0.0", "5", "70");
    assert!(push_settings_text(&mut boxes, Some(SettingsField::MouseSensitivity), "1.2a"));
    assert_eq!(boxes.mouse_sensitivity, "0.012");

    assert!(push_settings_text(&mut boxes, Some(SettingsField::ChunkViewDistance), "1.5"));
    assert_eq!(boxes.chunk_view_distance, "515");

    assert!(push_settings_text(&mut boxes, Some(SettingsField::Fov), ".5."));
    assert_eq!(boxes.fov_degrees, "70.5");

    assert!(!push_settings_text(&mut boxes, Some(SettingsField::Fov), "x."));
    assert_eq!(boxes.fov_degrees, "70.5");

    assert!(!push_settings_text(&mut boxes, None, "123"));
    assert_eq!(boxes.mouse_sensitivity, "0.012");
}

#[test]
fn backspace_removes_last_character_of_active_box() {
    let mut boxes = inputs("0.5", "", "70");
    settings_backspace(&mut boxes, Some(SettingsField::MouseSensitivity));
    assert_eq!(boxes.mouse_sensitivity, "0.");
    settings_backspace(&mut boxes, Some(SettingsField::ChunkViewDistance));
    assert_eq!(boxes.chunk_view_distance, "");
    settings_backspace(&mut boxes, None);
    assert_eq!(boxes.fov_degrees, "70");
}

#[test]
fn settings_keys_edit_the_active_box() {
    let (opened, _) = menu_click(MenuState::new(), Some(MenuAction::Settings), false);
    let opened = MenuState { active_settings_field: Some(SettingsField::Fov), ..opened };
    let mut boxes = inputs("1", "5", "70");

    let (s, c) = menu_key_event(opened, &mut boxes, GameKey::Digit5, true, Some("5"), false);
    assert_eq!(s, opened);
    assert_eq!(c, MenuCommand::Refresh);
    assert_eq!(boxes.fov_degrees, "705");

    let (_, c) = menu_key_event(opened, &mut boxes, GameKey::Backspace, true, None, false);
    assert_eq!(c, MenuCommand::Refresh);
    assert_eq!(boxes.fov_degrees, "70");

    let (_, c) = menu_key_event(opened, &mut boxes, GameKey::Enter, true, Some("\r"), false);
    assert_eq!(c, MenuCommand::ApplySettingsAndRefresh);

    let (_, c) = menu_key_event(opened, &mut boxes, GameKey::Digit5, false, None, false);
    assert_eq!(c, MenuCommand::Nothing);
    assert_eq!(boxes.fov_degrees, "70");

    let (_, c) = menu_key_event(opened, &mut boxes, GameKey::Other, true, Some("q"), false);
    assert_eq!(c, MenuCommand::Nothing);
}

#[test]
fn escape_on_each_menu_screen() {
    let mut boxes = inputs("1", "5", "70");
    let (s, c) = menu_key_event(state(AppScreen::MainMenu), &mut boxes, GameKey::Escape, true, None, false);
    assert_eq!((s.screen, c), (AppScreen::MainMenu, MenuCommand::Nothing));

    let (s, c) = menu_key_event(state(AppScreen::WorldList), &mut boxes, GameKey::Escape, true, None, false);
    assert_eq!((s.screen, c), (AppScreen::MainMenu, MenuCommand::Refresh));

    let (s, c) = menu_key_event(state(AppScreen::PauseMenu), &mut boxes, GameKey::Escape, true, None, true);
    assert_eq!((s.screen, c), (AppScreen::InGame, MenuCommand::ResumeGame));

    let (s, c) = menu_key_event(state(AppScreen::PauseMenu), &mut boxes, GameKey::Escape, false, None, true);
    assert_eq!((s.screen, c), (AppScreen::PauseMenu, MenuCommand::Nothing));
}

#[test]
fn play_keys_pause_toggle_noclip_select_hotbar_or_move() {
    assert_eq!(play_key_command(GameKey::Escape, true), PlayKeyCommand::OpenPauseMenu);
    assert_eq!(play_key_command(GameKey::Escape, false), PlayKeyCommand::SetKey);
    assert_eq!(play_key_command(GameKey::KeyV, true), PlayKeyCommand::ToggleNoclip);
    assert_eq!(play_key_command(GameKey::Digit3, true), PlayKeyCommand::SelectHotbarSlot(2));
    assert_eq!(play_key_command(GameKey::Digit3, false), PlayKeyCommand::SetKey);
    assert_eq!(play_key_command(GameKey::KeyW, true), PlayKeyCommand::SetKey);

    let paused = open_pause_menu(MenuState {
        screen: AppScreen::InGame,
        active_settings_field: Some(SettingsField::Fov),
        settings_back_screen: AppScreen::PauseMenu,
    });
    assert_eq!(paused.screen, AppScreen::PauseMenu);
    assert_eq!(paused.active_settings_field, None);
    assert_eq!(paused.settings_back_screen, AppScreen::PauseMenu);
}

#[test]
fn window_events_route_by_screen() {
    assert_eq!(key_route(AppScreen::LoadingWorld), KeyRoute::Ignore);
    assert_eq!(key_route(AppScreen::InGame), KeyRoute::Game);
    assert_eq!(key_route(AppScreen::Settings), KeyRoute::Menu);

    assert_eq!(
        mouse_button_command(AppScreen::InGame, PointerButton::Left, false),
        MouseCommand::Play { capture_mouse: false, breaking: Some(false), reset_breaking: true, place_block: false }
    );
    assert_eq!(
        mouse_button_command(AppScreen::InGame, PointerButton::Right, true),
        MouseCommand::Play { capture_mouse: true, breaking: None, reset_breaking: true, place_block: true }
    );
    assert_eq!(mouse_button_command(AppScreen::LoadingWorld, PointerButton::Left, true), MouseCommand::Ignore);
    assert_eq!(mouse_button_command(AppScreen::MainMenu, PointerButton::Left, true), MouseCommand::MenuClick);
    assert_eq!(mouse_button_command(AppScreen::MainMenu, PointerButton::Right, true), MouseCommand::Ignore);

    assert_eq!(focus_command(AppScreen::InGame, true), FocusCommand::CaptureMouse);
    assert_eq!(focus_command(AppScreen::MainMenu, true), FocusCommand::Nothing);
    assert_eq!(focus_command(AppScreen::MainMenu, false), FocusCommand::StopBreakingAndReleaseMouse);

    assert_eq!(close_command(AppScreen::Settings), MenuCommand::ApplySettingsSaveAndExit);
    assert_eq!(close_command(AppScreen::InGame), MenuCommand::SaveAndExit);

    assert_eq!(frame_work(AppScreen::InGame), FrameWork::PlayFrame);
    assert_eq!(frame_work(AppScreen::LoadingWorld), FrameWork::LoadWorld);
    assert_eq!(frame_work(AppScreen::PauseMenu), FrameWork::MenuFrame);
}
