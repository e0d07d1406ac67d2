pub mod card;
mod clock;
pub mod game;
pub mod keymap;
