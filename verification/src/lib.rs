//! Remaps the buttons, sticks and trackpads of game controllers.

pub mod axes;
pub mod config;
pub mod conflicts;
pub mod controller;
pub mod desktop_defaults;
pub mod devices;
pub mod event;
pub mod files;
pub mod groups;
pub mod haptics;
pub mod hints;
pub mod keyed;
pub mod layers;
pub mod lizard_mode;
pub mod loops;
pub mod order;
pub mod pads;
pub mod parse;
pub mod preferences;
pub mod reader;
pub mod registry;
pub mod resolver;
pub mod session;
pub mod settings;
pub mod state_export;
pub mod text;
pub mod trace;
pub mod windows;
