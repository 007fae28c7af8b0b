use my_library::game_state::{GameStatePlugin, MenuAction, MenuGraphic};

#[derive(Clone, Copy, PartialEq, Eq, Debug)]
enum Phase {
    MainMenu,
    Playing,
    GameOver,
    Loading,
}

#[test]
fn main_menu_keys() {
    let plugin = GameStatePlugin::new(Phase::MainMenu, Phase::Playing, Phase::GameOver);
    let menu = plugin.menu_resource();
    assert_eq!(menu.run(&Phase::MainMenu, true, true, false), MenuAction::SetState(Phase::Playing));
    assert_eq!(menu.run(&Phase::MainMenu, false, true, true), MenuAction::Exit);
    assert_eq!(menu.run(&Phase::MainMenu, false, false, true), MenuAction::Stay);
}

#[test]
fn game_over_keys() {
    let menu = GameStatePlugin::new(Phase::MainMenu, Phase::Playing, Phase::GameOver).menu_resource();
    assert_eq!(menu.run(&Phase::GameOver, true, false, true), MenuAction::SetState(Phase::MainMenu));
    assert_eq!(menu.run(&Phase::GameOver, true, true, false), MenuAction::Exit);
    assert_eq!(menu.run(&Phase::GameOver, true, false, false), MenuAction::Stay);
}

#[test]
fn other_phases_ignore_keys() {
    let menu = GameStatePlugin::new(Phase::MainMenu, Phase::Playing, Phase::GameOver).menu_resource();
    assert_eq!(menu.run(&Phase::Playing, true, true, true), MenuAction::Stay);
    assert_eq!(menu.run(&Phase::Loading, true, true, true), MenuAction::Stay);
}

#[test]
fn menu_graphics() {
    let menu = GameStatePlugin::new(Phase::MainMenu, Phase::Playing, Phase::GameOver).menu_resource();
    assert_eq!(menu.menu_graphic(&Phase::MainMenu), MenuGraphic::MainMenu);
    assert_eq!(menu.menu_graphic(&Phase::GameOver), MenuGraphic::GameOver);
}
