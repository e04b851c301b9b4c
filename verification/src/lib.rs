//! Arming decisions for bonded Bluetooth devices that the platform does not reconnect by itself.

pub mod bridge;
pub mod conduct;
pub mod engine;
pub mod history;
pub mod laws;
pub mod model;
pub mod records;
pub mod roster;
pub mod text;
pub mod wording;
