//! The game's phases as seen by the menus: which phase shows the main menu,
//! which one starts the game, and which one is the game-over screen, and what
//! a menu does when a key is pressed.
use vstd::prelude::*;
use vstd::std_specs::cmp::PartialEqSpec;

verus! {

/// The three phases that the menus use, for a game whose phases are `T`.
pub struct GameStatePlugin<T> {
    menu_state: T,
    game_start_state: T,
    game_end_state: T,
}

/// The phases that the menu systems read (the plugin installs a copy).
pub struct MenuResource<T> {
    pub menu_state: T,
    pub game_start_state: T,
    pub game_end_state: T,
}

/// What a menu does after a frame of input.
#[derive(Clone, Copy, PartialEq, Eq, Debug)]
pub enum MenuAction<T> {
    /// Nothing.
    Stay,
    /// Moves the game to the given phase.
    SetState(T),
    /// Quits the application.
    Exit,
}

/// The picture that a menu shows.
#[derive(Clone, Copy, PartialEq, Eq, Debug)]
pub enum MenuGraphic {
    /// The asset tagged `main_menu`.
    MainMenu,
    /// The asset tagged `game_over`.
    GameOver,
}

impl<T: Copy> GameStatePlugin<T> {
    /// The phase that shows the main menu.
    pub closed spec fn spec_menu_state(&self) -> T {
        self.menu_state
    }

    /// The phase in which the game starts.
    pub closed spec fn spec_game_start_state(&self) -> T {
        self.game_start_state
    }

    /// The phase that shows the game-over screen.
    pub closed spec fn spec_game_end_state(&self) -> T {
        self.game_end_state
    }

    /// A plugin with the given menu, game-start and game-end phases.
    pub fn new(menu_state: T, game_start_state: T, game_end_state: T) -> (r: Self)
        ensures
            r.spec_menu_state() == menu_state,
            r.spec_game_start_state() == game_start_state,
            r.spec_game_end_state() == game_end_state,
    {
        GameStatePlugin { menu_state, game_start_state, game_end_state }
    }

    /// The resource that the menu systems read: the plugin's three phases.
    pub fn menu_resource(&self) -> (r: MenuResource<T>)
        ensures
            r.menu_state == self.spec_menu_state(),
            r.game_start_state == self.spec_game_start_state(),
            r.game_end_state == self.spec_game_end_state(),
    {
        MenuResource {
            menu_state: self.menu_state,
            game_start_state: self.game_start_state,
            game_end_state: self.game_end_state,
        }
    }
}

impl<T: Copy + PartialEq> MenuResource<T> {
    /// What the menu does in phase `current` when, this frame, `p`, `q` and
    /// `m` were just pressed: on the main menu, P starts the game and Q
    /// quits; on the game-over screen, M goes back to the main menu and Q
    /// quits; P wins over Q, and M over Q. In any other phase nothing
    /// happens. Phases are compared with `==`.
    pub fn run(&self, current: &T, p: bool, q: bool, m: bool) -> (r: MenuAction<T>)
        requires
            T::obeys_eq_spec(),
        ensures
            r == (if current.eq_spec(&self.menu_state) {
                if p {
                    MenuAction::SetState(self.game_start_state)
                } else if q {
                    MenuAction::Exit
                } else {
                    MenuAction::Stay
                }
            } else if current.eq_spec(&self.game_end_state) {
                if m {
                    MenuAction::SetState(self.menu_state)
                } else if q {
                    MenuAction::Exit
                } else {
                    MenuAction::Stay
                }
            } else {
                MenuAction::Stay
            }),
    {
        if *current == self.menu_state {
            if p {
                MenuAction::SetState(self.game_start_state)
            } else if q {
                MenuAction::Exit
            } else {
                MenuAction::Stay
            }
        } else if *current == self.game_end_state {
            if m {
                MenuAction::SetState(self.menu_state)
            } else if q {
                MenuAction::Exit
            } else {
                MenuAction::Stay
            }
        } else {
            MenuAction::Stay
        }
    }

    /// The picture shown on entering phase `current`, which must be the main
    /// menu or the game-over phase: the main menu wins if they are equal.
    pub fn menu_graphic(&self, current: &T) -> (r: MenuGraphic)
        requires
            T::obeys_eq_spec(),
            self.menu_state.eq_spec(current) || self.game_end_state.eq_spec(current),
        ensures
            r == (if self.menu_state.eq_spec(current) {
                MenuGraphic::MainMenu
            } else {
                MenuGraphic::GameOver
            }),
    {
        if self.menu_state == *current {
            MenuGraphic::MainMenu
        } else {
            MenuGraphic::GameOver
        }
    }
}

} // verus!
