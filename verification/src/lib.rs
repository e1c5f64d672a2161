//! The rules of a bandwidth-limiting TCP proxy for one machine.

pub mod address;
pub mod double;
pub mod editor;
pub mod gate;
pub mod graph;
pub mod labels;
pub mod natural;
pub mod power;
pub mod proxy;
pub mod relay;
pub mod round;
pub mod server;
pub mod session;
pub mod settings;
pub mod text;
pub mod theme;
pub mod window;
