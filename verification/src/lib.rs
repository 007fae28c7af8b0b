//! Verified game logic for a small family of Bevy games: the Mars Base One
//! world generator, the fixed-step physics clock and impulse resolution, the
//! static quad tree and spatial index used for collisions, the menus' phase
//! logic, Flappy Dragon's walls, and a random number generator built on
//! `rand`.
pub mod game_state;
pub mod performance;
pub mod physics;
pub mod quadtree;
pub mod random;
pub mod walls;
pub mod world;

pub use game_state::{GameStatePlugin, MenuAction, MenuGraphic, MenuResource};
pub use physics::{ApplyGravity, ClockAction, ImpulseKey, PhysicsTick, PhysicsTimer};
pub use quadtree::{StaticQuadTree, StaticQuadTreeNode};
pub use random::{RandomNumberGenerator, UniformAny, UniformInt};
pub use world::{Ground, MarsWorld};
