pub mod colony;
pub mod dispatch;
pub mod event;
pub mod game;
pub mod io;
pub mod store;

pub use crate::colony::{default_state_and_dispatcher, ColonyState, PlaceholderComponent};
