//! What holds of the bot as a whole.
pub mod answers;
pub mod buttons;
pub mod bus;
pub mod conduct;
pub mod prompts;
pub mod questions;
pub mod sessions;
pub mod store;
pub mod views;
