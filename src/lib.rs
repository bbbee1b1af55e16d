//! Simulation core of a side-scrolling obstacle-avoidance game.
//!
//! Entities carry immutable tags; contact events between them are classified
//! by tag pair and transition; a repeating timer spawns obstacles; a scoreboard
//! tracks the score and whether the run is over; obstacles that leave the
//! playable bounds are destroyed with their parts.
pub mod contact;
pub mod game;
pub mod registry;
pub mod scoreboard;
pub mod spawner;
pub mod tag;
